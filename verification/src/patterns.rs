//! The known junk directories.

use vstd::prelude::*;

use crate::junk::{JunkPattern, PatternFacts};
use crate::junk;

verus! {

/// One row of the table.
pub open spec fn fact(
    dir_name: Seq<char>,
    ecosystem: Seq<char>,
    marker: Option<Seq<char>>,
) -> PatternFacts {
    PatternFacts { dir_name, ecosystem, marker }
}

fn pattern(
    dir_name: &'static str,
    ecosystem: &'static str,
    marker: Option<&'static str>,
) -> (pattern: JunkPattern)
    ensures
        pattern@ == fact(
            dir_name@,
            ecosystem@,
            match marker {
                Some(marker) => Some(marker@),
                None => None,
            },
        ),
{
    JunkPattern { dir_name, ecosystem, marker }
}

/// Node, Python and notebooks.
pub open spec fn scripting_facts() -> Seq<PatternFacts> {
    seq![
        fact("node_modules"@, "Node"@, None),
        fact(".turbo"@, "Turborepo"@, None),
        fact("__pycache__"@, "Python"@, None),
        fact(".tox"@, "Python (tox)"@, None),
        fact(".eggs"@, "Python (eggs)"@, None),
        fact(".venv"@, "Python (venv)"@, None),
        fact("venv"@, "Python (venv)"@, Some("pyvenv.cfg"@)),
        fact(".mypy_cache"@, "Python (mypy)"@, None),
        fact(".pytest_cache"@, "Python (pytest)"@, None),
        fact(".ruff_cache"@, "Python (ruff)"@, None),
        fact(".pixi"@, "Pixi"@, None),
        fact(".ipynb_checkpoints"@, "Jupyter"@, None),
    ]
}

/// Cargo, CMake, Composer, Elixir, Godot and Gradle.
pub open spec fn build_tool_facts() -> Seq<PatternFacts> {
    seq![
        fact("target"@, "Rust (Cargo)"@, Some("Cargo.toml"@)),
        fact("build"@, "CMake"@, Some("CMakeLists.txt"@)),
        fact("cmake-build-debug"@, "CMake"@, None),
        fact("cmake-build-release"@, "CMake"@, None),
        fact("vendor"@, "Composer (PHP)"@, Some("composer.json"@)),
        fact("_build"@, "Elixir"@, Some("mix.exs"@)),
        fact("deps"@, "Elixir"@, Some("mix.exs"@)),
        fact(".godot"@, "Godot"@, None),
        fact(".mono"@, "Godot (C#)"@, None),
        fact(".gradle"@, "Gradle"@, None),
        fact("build"@, "Gradle"@, Some("build.gradle"@)),
        fact("build"@, "Gradle (kts)"@, Some("build.gradle.kts"@)),
    ]
}

/// Maven, Dart, Scala, Haskell, Swift, Unity and Unreal.
pub open spec fn engine_facts() -> Seq<PatternFacts> {
    seq![
        fact("target"@, "Maven"@, Some("pom.xml"@)),
        fact(".dart_tool"@, "Dart (pub)"@, None),
        fact("build"@, "Dart (pub)"@, Some("pubspec.yaml"@)),
        fact("target"@, "SBT (Scala)"@, Some("build.sbt"@)),
        fact(".bsp"@, "SBT (Scala)"@, Some("build.sbt"@)),
        fact(".stack-work"@, "Stack (Haskell)"@, None),
        fact("dist-newstyle"@, "Cabal (Haskell)"@, None),
        fact(".build"@, "Swift (SPM)"@, Some("Package.swift"@)),
        fact("DerivedData"@, "Xcode"@, None),
        fact("Library"@, "Unity"@, Some("ProjectSettings"@)),
        fact("Temp"@, "Unity"@, Some("ProjectSettings"@)),
        fact("Intermediate"@, "Unreal Engine"@, None),
        fact("Saved"@, "Unreal Engine"@, None),
        fact("DerivedDataCache"@, "Unreal Engine"@, None),
    ]
}

/// Zig, .NET, Terraform, React Native, Docker, Homebrew and browsers.
pub open spec fn platform_cache_facts() -> Seq<PatternFacts> {
    seq![
        fact("zig-cache"@, "Zig"@, None),
        fact("zig-out"@, "Zig"@, None),
        fact(".zig-cache"@, "Zig"@, None),
        fact("bin"@, ".NET"@, Some("*.csproj"@)),
        fact("obj"@, ".NET"@, Some("*.csproj"@)),
        fact("bin"@, ".NET (F#)"@, Some("*.fsproj"@)),
        fact("obj"@, ".NET (F#)"@, Some("*.fsproj"@)),
        fact(".terraform"@, "Terraform"@, None),
        fact("Pods"@, "React Native (iOS)"@, Some("Podfile"@)),
        fact("com.docker.docker"@, "Docker Desktop"@, None),
        fact("Homebrew"@, "Homebrew (cache)"@, None),
        fact("com.apple.Safari"@, "Safari (cache)"@, None),
        fact("com.apple.WebKit.Networking"@, "WebKit (cache)"@, None),
        fact("com.apple.WebKit.WebContent"@, "WebKit (cache)"@, None),
        fact("com.google.Chrome"@, "Chrome (cache)"@, None),
        fact("Google"@, "Chrome (cache)"@, None),
        fact("Firefox"@, "Firefox (cache)"@, None),
        fact("org.mozilla.firefox"@, "Firefox (cache)"@, None),
        fact("com.microsoft.Edge"@, "Edge (cache)"@, None),
        fact("com.brave.Browser"@, "Brave (cache)"@, None),
        fact("company.thebrowser.Browser"@, "Arc (cache)"@, None),
        fact("com.operasoftware.Opera"@, "Opera (cache)"@, None),
    ]
}

/// Editors, Xcode and package managers.
pub open spec fn developer_cache_facts() -> Seq<PatternFacts> {
    seq![
        fact("Code"@, "VS Code (cache)"@, Some("CachedData"@)),
        fact("Cursor"@, "Cursor (cache)"@, Some("CachedData"@)),
        fact(".vscode"@, "VS Code"@, None),
        fact("DerivedData"@, "Xcode"@, None),
        fact("Archives"@, "Xcode (archives)"@, None),
        fact("iOS DeviceSupport"@, "Xcode (device)"@, None),
        fact("watchOS DeviceSupport"@, "Xcode (device)"@, None),
        fact(".npm"@, "npm (global cache)"@, None),
        fact(".yarn"@, "Yarn (global cache)"@, None),
        fact(".pnpm-store"@, "pnpm (store)"@, None),
        fact(".bun"@, "Bun (cache)"@, None),
        fact(".deno"@, "Deno (cache)"@, None),
        fact(".cargo"@, "Cargo (global cache)"@, None),
        fact(".rustup"@, "Rustup (toolchains)"@, None),
        fact(".pub-cache"@, "Dart (pub cache)"@, None),
        fact(".cache"@, "XDG cache"@, None),
        fact(".cocoapods"@, "CocoaPods (cache)"@, None),
        fact(".gradle"@, "Gradle (global cache)"@, None),
        fact(".m2"@, "Maven (local repo)"@, None),
        fact(".ivy2"@, "Ivy/SBT (cache)"@, None),
        fact(".sbt"@, "SBT (global)"@, None),
        fact(".conda"@, "Conda (cache)"@, None),
        fact(".local"@, "pip/pipx (cache)"@, Some("share"@)),
    ]
}

/// Model caches, browsers for tests, Go, build output and system logs.
pub open spec fn artifact_facts() -> Seq<PatternFacts> {
    seq![
        fact(".ollama"@, "Ollama (models)"@, None),
        fact("huggingface"@, "HuggingFace (cache)"@, None),
        fact("ms-playwright"@, "Playwright (browsers)"@, None),
        fact(".cache"@, "Puppeteer (browsers)"@, Some("puppeteer"@)),
        fact("go"@, "Go (GOPATH)"@, Some("bin"@)),
        fact(".next"@, "Next.js (cache)"@, None),
        fact(".nuxt"@, "Nuxt.js (cache)"@, None),
        fact(".angular"@, "Angular (cache)"@, None),
        fact(".parcel-cache"@, "Parcel (cache)"@, None),
        fact("dist"@, "Build output"@, Some("package.json"@)),
        fact(".svelte-kit"@, "SvelteKit (cache)"@, None),
        fact("coverage"@, "Test coverage"@, Some("package.json"@)),
        fact(".pytest_cache"@, "pytest (cache)"@, None),
        fact("htmlcov"@, "Python coverage"@, None),
        fact("CrashReporter"@, "macOS (crashes)"@, None),
        fact("DiagnosticReports"@, "macOS (diagnostics)"@, None),
    ]
}

/// All known junk directories.
pub open spec fn known_facts() -> Seq<PatternFacts> {
    scripting_facts() + build_tool_facts() + engine_facts() + platform_cache_facts() + developer_cache_facts() + artifact_facts()
}

fn scripting_patterns() -> (patterns: Vec<JunkPattern>)
    ensures
        junk::facts_of(patterns@) == scripting_facts(),
{
    let patterns = vec![
        // Node / JavaScript
        pattern("node_modules", "Node", None),
        pattern(".turbo", "Turborepo", None),
        // Python
        pattern("__pycache__", "Python", None),
        pattern(".tox", "Python (tox)", None),
        pattern(".eggs", "Python (eggs)", None),
        pattern(".venv", "Python (venv)", None),
        pattern("venv", "Python (venv)", Some("pyvenv.cfg")),
        pattern(".mypy_cache", "Python (mypy)", None),
        pattern(".pytest_cache", "Python (pytest)", None),
        pattern(".ruff_cache", "Python (ruff)", None),
        // Pixi (Python)
        pattern(".pixi", "Pixi", None),
        // Jupyter
        pattern(".ipynb_checkpoints", "Jupyter", None),
    ];
    assert(junk::facts_of(patterns@) =~= scripting_facts());
    patterns
}

fn build_tool_patterns() -> (patterns: Vec<JunkPattern>)
    ensures
        junk::facts_of(patterns@) == build_tool_facts(),
{
    let patterns = vec![
        // Rust / Cargo
        pattern("target", "Rust (Cargo)", Some("Cargo.toml")),
        // CMake (C / C++)
        pattern("build", "CMake", Some("CMakeLists.txt")),
        pattern("cmake-build-debug", "CMake", None),
        pattern("cmake-build-release", "CMake", None),
        // Composer (PHP)
        pattern("vendor", "Composer (PHP)", Some("composer.json")),
        // Elixir
        pattern("_build", "Elixir", Some("mix.exs")),
        pattern("deps", "Elixir", Some("mix.exs")),
        // Godot 4.x
        pattern(".godot", "Godot", None),
        pattern(".mono", "Godot (C#)", None),
        // Gradle (Java)
        pattern(".gradle", "Gradle", None),
        pattern("build", "Gradle", Some("build.gradle")),
        pattern("build", "Gradle (kts)", Some("build.gradle.kts")),
    ];
    assert(junk::facts_of(patterns@) =~= build_tool_facts());
    patterns
}

fn engine_patterns() -> (patterns: Vec<JunkPattern>)
    ensures
        junk::facts_of(patterns@) == engine_facts(),
{
    let patterns = vec![
        // Maven (Java)
        pattern("target", "Maven", Some("pom.xml")),
        // Pub (Dart)
        pattern(".dart_tool", "Dart (pub)", None),
        pattern("build", "Dart (pub)", Some("pubspec.yaml")),
        // SBT (Scala)
        pattern("target", "SBT (Scala)", Some("build.sbt")),
        pattern(".bsp", "SBT (Scala)", Some("build.sbt")),
        // Stack (Haskell)
        pattern(".stack-work", "Stack (Haskell)", None),
        // Cabal (Haskell)
        pattern("dist-newstyle", "Cabal (Haskell)", None),
        // Swift
        pattern(".build", "Swift (SPM)", Some("Package.swift")),
        pattern("DerivedData", "Xcode", None),
        // Unity (C#)
        pattern("Library", "Unity", Some("ProjectSettings")),
        pattern("Temp", "Unity", Some("ProjectSettings")),
        // Unreal Engine (C++)
        pattern("Intermediate", "Unreal Engine", None),
        pattern("Saved", "Unreal Engine", None),
        pattern("DerivedDataCache", "Unreal Engine", None),
    ];
    assert(junk::facts_of(patterns@) =~= engine_facts());
    patterns
}

fn platform_cache_patterns() -> (patterns: Vec<JunkPattern>)
    ensures
        junk::facts_of(patterns@) == platform_cache_facts(),
{
    let patterns = vec![
        // Zig
        pattern("zig-cache", "Zig", None),
        pattern("zig-out", "Zig", None),
        pattern(".zig-cache", "Zig", None),
        // .NET (C# / F#)
        pattern("bin", ".NET", Some("*.csproj")),
        pattern("obj", ".NET", Some("*.csproj")),
        pattern("bin", ".NET (F#)", Some("*.fsproj")),
        pattern("obj", ".NET (F#)", Some("*.fsproj")),
        // Terraform
        pattern(".terraform", "Terraform", None),
        // React Native
        pattern("Pods", "React Native (iOS)", Some("Podfile")),
        // Docker
        pattern("com.docker.docker", "Docker Desktop", None),
        // Homebrew
        pattern("Homebrew", "Homebrew (cache)", None),
        // Browser caches
        pattern("com.apple.Safari", "Safari (cache)", None),
        pattern("com.apple.WebKit.Networking", "WebKit (cache)", None),
        pattern("com.apple.WebKit.WebContent", "WebKit (cache)", None),
        pattern("com.google.Chrome", "Chrome (cache)", None),
        pattern("Google", "Chrome (cache)", None),
        pattern("Firefox", "Firefox (cache)", None),
        pattern("org.mozilla.firefox", "Firefox (cache)", None),
        pattern("com.microsoft.Edge", "Edge (cache)", None),
        pattern("com.brave.Browser", "Brave (cache)", None),
        pattern("company.thebrowser.Browser", "Arc (cache)", None),
        pattern("com.operasoftware.Opera", "Opera (cache)", None),
    ];
    assert(junk::facts_of(patterns@) =~= platform_cache_facts());
    patterns
}

fn developer_cache_patterns() -> (patterns: Vec<JunkPattern>)
    ensures
        junk::facts_of(patterns@) == developer_cache_facts(),
{
    let patterns = vec![
        // IDE / Editor caches
        pattern("Code", "VS Code (cache)", Some("CachedData")),
        pattern("Cursor", "Cursor (cache)", Some("CachedData")),
        pattern(".vscode", "VS Code", None),
        // Xcode
        pattern("DerivedData", "Xcode", None),
        pattern("Archives", "Xcode (archives)", None),
        pattern("iOS DeviceSupport", "Xcode (device)", None),
        pattern("watchOS DeviceSupport", "Xcode (device)", None),
        // Package manager global caches
        pattern(".npm", "npm (global cache)", None),
        pattern(".yarn", "Yarn (global cache)", None),
        pattern(".pnpm-store", "pnpm (store)", None),
        pattern(".bun", "Bun (cache)", None),
        pattern(".deno", "Deno (cache)", None),
        pattern(".cargo", "Cargo (global cache)", None),
        pattern(".rustup", "Rustup (toolchains)", None),
        pattern(".pub-cache", "Dart (pub cache)", None),
        pattern(".cache", "XDG cache", None),
        pattern(".cocoapods", "CocoaPods (cache)", None),
        pattern(".gradle", "Gradle (global cache)", None),
        pattern(".m2", "Maven (local repo)", None),
        pattern(".ivy2", "Ivy/SBT (cache)", None),
        pattern(".sbt", "SBT (global)", None),
        pattern(".conda", "Conda (cache)", None),
        pattern(".local", "pip/pipx (cache)", Some("share")),
    ];
    assert(junk::facts_of(patterns@) =~= developer_cache_facts());
    patterns
}

fn artifact_patterns() -> (patterns: Vec<JunkPattern>)
    ensures
        junk::facts_of(patterns@) == artifact_facts(),
{
    let patterns = vec![
        // AI / ML caches
        pattern(".ollama", "Ollama (models)", None),
        pattern("huggingface", "HuggingFace (cache)", None),
        // Playwright / Puppeteer
        pattern("ms-playwright", "Playwright (browsers)", None),
        pattern(".cache", "Puppeteer (browsers)", Some("puppeteer")),
        // Go
        pattern("go", "Go (GOPATH)", Some("bin")),
        // Misc build artifacts
        pattern(".next", "Next.js (cache)", None),
        pattern(".nuxt", "Nuxt.js (cache)", None),
        pattern(".angular", "Angular (cache)", None),
        pattern(".parcel-cache", "Parcel (cache)", None),
        pattern("dist", "Build output", Some("package.json")),
        pattern(".svelte-kit", "SvelteKit (cache)", None),
        pattern("coverage", "Test coverage", Some("package.json")),
        pattern(".pytest_cache", "pytest (cache)", None),
        pattern("htmlcov", "Python coverage", None),
        // macOS system caches / logs
        pattern("CrashReporter", "macOS (crashes)", None),
        pattern("DiagnosticReports", "macOS (diagnostics)", None),
    ];
    assert(junk::facts_of(patterns@) =~= artifact_facts());
    patterns
}

/// Adds a group of patterns behind the others.
fn add_group(patterns: &mut Vec<JunkPattern>, group: Vec<JunkPattern>)
    ensures
        junk::facts_of(final(patterns)@) == junk::facts_of(old(patterns)@) + junk::facts_of(group@),
{
    let mut group = group;
    let ghost said = patterns@;
    let ghost added = group@;
    patterns.append(&mut group);
    assert(junk::facts_of(said + added) =~= junk::facts_of(said) + junk::facts_of(added));
}

/// All known junk directories.
pub fn patterns() -> (patterns: Vec<JunkPattern>)
    ensures
        junk::facts_of(patterns@) == known_facts(),
{
    let mut patterns = scripting_patterns();
    add_group(&mut patterns, build_tool_patterns());
    add_group(&mut patterns, engine_patterns());
    add_group(&mut patterns, platform_cache_patterns());
    add_group(&mut patterns, developer_cache_patterns());
    add_group(&mut patterns, artifact_patterns());
    patterns
}

// ── Ambiguous names ─────────────────────────────────────────────────────

/// Directory names that are as common outside of builds as in them.
pub open spec fn is_ambiguous(name: Seq<char>) -> bool {
    name == "target"@ || name == "build"@ || name == "vendor"@ || name == "bin"@ || name == "obj"@
        || name == "deps"@ || name == "Code"@ || name == "go"@
}

/// A name that is too long for an ambiguous one, or starts unlike any of them.
spec fn is_telling(name: Seq<char>) -> bool {
    name.len() > 6 || (name.len() > 0 && (name[0] == '.' || name[0] == 'G' || name[0] == 'S'))
}

/// The patterns without a marker have telling names.
spec fn tells(patterns: Seq<PatternFacts>) -> bool {
    forall|i: int|
        0 <= i < patterns.len() && (#[trigger] patterns[i]).marker is None ==> is_telling(
            patterns[i].dir_name,
        )
}

proof fn lemma_ambiguous_is_not_telling(name: Seq<char>)
    requires
        is_ambiguous(name),
    ensures
        !is_telling(name),
{
    reveal_strlit("target");
    reveal_strlit("build");
    reveal_strlit("vendor");
    reveal_strlit("bin");
    reveal_strlit("obj");
    reveal_strlit("deps");
    reveal_strlit("Code");
    reveal_strlit("go");
}

proof fn lemma_scripting_tells()
    ensures
        tells(scripting_facts()),
{
    reveal_strlit("node_modules");
    reveal_strlit(".turbo");
    reveal_strlit("__pycache__");
    reveal_strlit(".tox");
    reveal_strlit(".eggs");
    reveal_strlit(".venv");
    reveal_strlit(".mypy_cache");
    reveal_strlit(".pytest_cache");
    reveal_strlit(".ruff_cache");
    reveal_strlit(".pixi");
    reveal_strlit(".ipynb_checkpoints");
}

proof fn lemma_build_tool_tells()
    ensures
        tells(build_tool_facts()),
{
    reveal_strlit("cmake-build-debug");
    reveal_strlit("cmake-build-release");
    reveal_strlit(".godot");
    reveal_strlit(".mono");
    reveal_strlit(".gradle");
}

proof fn lemma_engine_tells()
    ensures
        tells(engine_facts()),
{
    reveal_strlit(".dart_tool");
    reveal_strlit(".stack-work");
    reveal_strlit("dist-newstyle");
    reveal_strlit("DerivedData");
    reveal_strlit("Intermediate");
    reveal_strlit("Saved");
    reveal_strlit("DerivedDataCache");
}

proof fn lemma_platform_cache_tells()
    ensures
        tells(platform_cache_facts()),
{
    reveal_strlit("zig-cache");
    reveal_strlit("zig-out");
    reveal_strlit(".zig-cache");
    reveal_strlit(".terraform");
    reveal_strlit("com.docker.docker");
    reveal_strlit("Homebrew");
    reveal_strlit("com.apple.Safari");
    reveal_strlit("com.apple.WebKit.Networking");
    reveal_strlit("com.apple.WebKit.WebContent");
    reveal_strlit("com.google.Chrome");
    reveal_strlit("Google");
    reveal_strlit("Firefox");
    reveal_strlit("org.mozilla.firefox");
    reveal_strlit("com.microsoft.Edge");
    reveal_strlit("com.brave.Browser");
    reveal_strlit("company.thebrowser.Browser");
    reveal_strlit("com.operasoftware.Opera");
}

proof fn lemma_developer_cache_tells()
    ensures
        tells(developer_cache_facts()),
{
    reveal_strlit(".vscode");
    reveal_strlit("DerivedData");
    reveal_strlit("Archives");
    reveal_strlit("iOS DeviceSupport");
    reveal_strlit("watchOS DeviceSupport");
    reveal_strlit(".npm");
    reveal_strlit(".yarn");
    reveal_strlit(".pnpm-store");
    reveal_strlit(".bun");
    reveal_strlit(".deno");
    reveal_strlit(".cargo");
    reveal_strlit(".rustup");
    reveal_strlit(".pub-cache");
    reveal_strlit(".cache");
    reveal_strlit(".cocoapods");
    reveal_strlit(".gradle");
    reveal_strlit(".m2");
    reveal_strlit(".ivy2");
    reveal_strlit(".sbt");
    reveal_strlit(".conda");
}

proof fn lemma_artifact_tells()
    ensures
        tells(artifact_facts()),
{
    reveal_strlit(".ollama");
    reveal_strlit("huggingface");
    reveal_strlit("ms-playwright");
    reveal_strlit(".next");
    reveal_strlit(".nuxt");
    reveal_strlit(".angular");
    reveal_strlit(".parcel-cache");
    reveal_strlit(".svelte-kit");
    reveal_strlit(".pytest_cache");
    reveal_strlit("htmlcov");
    reveal_strlit("CrashReporter");
    reveal_strlit("DiagnosticReports");
}

proof fn lemma_known_tells()
    ensures
        tells(known_facts()),
{
    lemma_scripting_tells();
    lemma_build_tool_tells();
    lemma_engine_tells();
    lemma_platform_cache_tells();
    lemma_developer_cache_tells();
    lemma_artifact_tells();
}

/// An ambiguous name is junk only where its parent directory holds a marker.
pub proof fn ambiguous_names_need_a_marker(name: Seq<char>, holds: spec_fn(Seq<char>) -> bool)
    requires
        is_ambiguous(name),
        forall|marker: Seq<char>| !(#[trigger] holds(marker)),
    ensures
        junk::verdict(known_facts(), vstd::utf8::encode_utf8(name), holds, 0) is None,
{
    let bytes = vstd::utf8::encode_utf8(name);
    let known = known_facts();
    lemma_known_tells();
    lemma_ambiguous_is_not_telling(name);
    junk::first_pattern_decides(known, bytes, holds);
    assert forall|i: int| 0 <= i < known.len() implies !junk::applies(
        #[trigger] known[i],
        bytes,
        holds,
    ) by {
        if known[i].marker is None && junk::is_named(known[i], bytes) {
            vstd::utf8::encode_utf8_decode_utf8(known[i].dir_name);
            vstd::utf8::encode_utf8_decode_utf8(name);
            assert(known[i].dir_name == name);
        }
    }
}

} // verus!
