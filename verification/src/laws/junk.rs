//! Laws of junk: which directories are junk, of which ecosystem, and where a marker is needed.

use vstd::prelude::*;

use crate::junk::{JunkPattern, JunkStep, PatternFacts, ProbeFacts, StepFacts};
use crate::junk;
use crate::paths;
use crate::patterns;

verus! {

/// `name` is the directory name `dir`, which stands for junk of `tool`.
pub open spec fn is_for(
    name: Seq<u8>,
    ecosystem: Seq<char>,
    dir: Seq<char>,
    tool: Seq<char>,
) -> bool {
    vstd::utf8::encode_utf8(dir) == name && ecosystem == tool
}

/// What the table of junk promises.
pub open spec fn scripting_junk(
    name: Seq<u8>,
    e: Seq<char>,
    holds: spec_fn(Seq<char>) -> bool,
) -> bool {
    ||| is_for(name, e, "node_modules"@, "Node"@)
    ||| is_for(name, e, ".turbo"@, "Turborepo"@)
    ||| is_for(name, e, "__pycache__"@, "Python"@)
    ||| is_for(name, e, ".tox"@, "Python (tox)"@)
    ||| is_for(name, e, ".eggs"@, "Python (eggs)"@)
    ||| is_for(name, e, ".venv"@, "Python (venv)"@)
    ||| is_for(name, e, "venv"@, "Python (venv)"@) && holds("pyvenv.cfg"@)
    ||| is_for(name, e, ".mypy_cache"@, "Python (mypy)"@)
    ||| is_for(name, e, ".pytest_cache"@, "Python (pytest)"@)
    ||| is_for(name, e, ".ruff_cache"@, "Python (ruff)"@)
    ||| is_for(name, e, ".pixi"@, "Pixi"@)
    ||| is_for(name, e, ".ipynb_checkpoints"@, "Jupyter"@)
}

/// What the table of junk promises.
pub open spec fn build_tool_junk(
    name: Seq<u8>,
    e: Seq<char>,
    holds: spec_fn(Seq<char>) -> bool,
) -> bool {
    ||| is_for(name, e, "target"@, "Rust (Cargo)"@) && holds("Cargo.toml"@)
    ||| is_for(name, e, "build"@, "CMake"@) && holds("CMakeLists.txt"@)
    ||| is_for(name, e, "cmake-build-debug"@, "CMake"@)
    ||| is_for(name, e, "cmake-build-release"@, "CMake"@)
    ||| is_for(name, e, "vendor"@, "Composer (PHP)"@) && holds("composer.json"@)
    ||| is_for(name, e, "_build"@, "Elixir"@) && holds("mix.exs"@)
    ||| is_for(name, e, "deps"@, "Elixir"@) && holds("mix.exs"@)
    ||| is_for(name, e, ".godot"@, "Godot"@)
    ||| is_for(name, e, ".mono"@, "Godot (C#)"@)
    ||| is_for(name, e, ".gradle"@, "Gradle"@)
    ||| is_for(name, e, "build"@, "Gradle"@) && holds("build.gradle"@)
    ||| is_for(name, e, "build"@, "Gradle (kts)"@) && holds("build.gradle.kts"@)
}

/// What the table of junk promises.
pub open spec fn engine_junk(
    name: Seq<u8>,
    e: Seq<char>,
    holds: spec_fn(Seq<char>) -> bool,
) -> bool {
    ||| is_for(name, e, "target"@, "Maven"@) && holds("pom.xml"@)
    ||| is_for(name, e, ".dart_tool"@, "Dart (pub)"@)
    ||| is_for(name, e, "build"@, "Dart (pub)"@) && holds("pubspec.yaml"@)
    ||| is_for(name, e, "target"@, "SBT (Scala)"@) && holds("build.sbt"@)
    ||| is_for(name, e, ".bsp"@, "SBT (Scala)"@) && holds("build.sbt"@)
    ||| is_for(name, e, ".stack-work"@, "Stack (Haskell)"@)
    ||| is_for(name, e, "dist-newstyle"@, "Cabal (Haskell)"@)
    ||| is_for(name, e, ".build"@, "Swift (SPM)"@) && holds("Package.swift"@)
    ||| is_for(name, e, "DerivedData"@, "Xcode"@)
    ||| is_for(name, e, "Library"@, "Unity"@) && holds("ProjectSettings"@)
    ||| is_for(name, e, "Temp"@, "Unity"@) && holds("ProjectSettings"@)
    ||| is_for(name, e, "Intermediate"@, "Unreal Engine"@)
    ||| is_for(name, e, "Saved"@, "Unreal Engine"@)
    ||| is_for(name, e, "DerivedDataCache"@, "Unreal Engine"@)
}

/// What the table of junk promises.
pub open spec fn platform_cache_junk(
    name: Seq<u8>,
    e: Seq<char>,
    holds: spec_fn(Seq<char>) -> bool,
) -> bool {
    ||| is_for(name, e, "zig-cache"@, "Zig"@)
    ||| is_for(name, e, "zig-out"@, "Zig"@)
    ||| is_for(name, e, ".zig-cache"@, "Zig"@)
    ||| is_for(name, e, "bin"@, ".NET"@) && holds("*.csproj"@)
    ||| is_for(name, e, "obj"@, ".NET"@) && holds("*.csproj"@)
    ||| is_for(name, e, "bin"@, ".NET (F#)"@) && holds("*.fsproj"@)
    ||| is_for(name, e, "obj"@, ".NET (F#)"@) && holds("*.fsproj"@)
    ||| is_for(name, e, ".terraform"@, "Terraform"@)
    ||| is_for(name, e, "Pods"@, "React Native (iOS)"@) && holds("Podfile"@)
    ||| is_for(name, e, "com.docker.docker"@, "Docker Desktop"@)
    ||| is_for(name, e, "Homebrew"@, "Homebrew (cache)"@)
    ||| is_for(name, e, "com.apple.Safari"@, "Safari (cache)"@)
    ||| is_for(name, e, "com.apple.WebKit.Networking"@, "WebKit (cache)"@)
    ||| is_for(name, e, "com.apple.WebKit.WebContent"@, "WebKit (cache)"@)
    ||| is_for(name, e, "com.google.Chrome"@, "Chrome (cache)"@)
    ||| is_for(name, e, "Google"@, "Chrome (cache)"@)
    ||| is_for(name, e, "Firefox"@, "Firefox (cache)"@)
    ||| is_for(name, e, "org.mozilla.firefox"@, "Firefox (cache)"@)
    ||| is_for(name, e, "com.microsoft.Edge"@, "Edge (cache)"@)
    ||| is_for(name, e, "com.brave.Browser"@, "Brave (cache)"@)
    ||| is_for(name, e, "company.thebrowser.Browser"@, "Arc (cache)"@)
    ||| is_for(name, e, "com.operasoftware.Opera"@, "Opera (cache)"@)
}

/// What the table of junk promises.
pub open spec fn developer_cache_junk(
    name: Seq<u8>,
    e: Seq<char>,
    holds: spec_fn(Seq<char>) -> bool,
) -> bool {
    ||| is_for(name, e, "Code"@, "VS Code (cache)"@) && holds("CachedData"@)
    ||| is_for(name, e, "Cursor"@, "Cursor (cache)"@) && holds("CachedData"@)
    ||| is_for(name, e, ".vscode"@, "VS Code"@)
    ||| is_for(name, e, "DerivedData"@, "Xcode"@)
    ||| is_for(name, e, "Archives"@, "Xcode (archives)"@)
    ||| is_for(name, e, "iOS DeviceSupport"@, "Xcode (device)"@)
    ||| is_for(name, e, "watchOS DeviceSupport"@, "Xcode (device)"@)
    ||| is_for(name, e, ".npm"@, "npm (global cache)"@)
    ||| is_for(name, e, ".yarn"@, "Yarn (global cache)"@)
    ||| is_for(name, e, ".pnpm-store"@, "pnpm (store)"@)
    ||| is_for(name, e, ".bun"@, "Bun (cache)"@)
    ||| is_for(name, e, ".deno"@, "Deno (cache)"@)
    ||| is_for(name, e, ".cargo"@, "Cargo (global cache)"@)
    ||| is_for(name, e, ".rustup"@, "Rustup (toolchains)"@)
    ||| is_for(name, e, ".pub-cache"@, "Dart (pub cache)"@)
    ||| is_for(name, e, ".cache"@, "XDG cache"@)
    ||| is_for(name, e, ".cocoapods"@, "CocoaPods (cache)"@)
    ||| is_for(name, e, ".gradle"@, "Gradle (global cache)"@)
    ||| is_for(name, e, ".m2"@, "Maven (local repo)"@)
    ||| is_for(name, e, ".ivy2"@, "Ivy/SBT (cache)"@)
    ||| is_for(name, e, ".sbt"@, "SBT (global)"@)
    ||| is_for(name, e, ".conda"@, "Conda (cache)"@)
    ||| is_for(name, e, ".local"@, "pip/pipx (cache)"@) && holds("share"@)
}

/// What the table of junk promises.
pub open spec fn artifact_junk(
    name: Seq<u8>,
    e: Seq<char>,
    holds: spec_fn(Seq<char>) -> bool,
) -> bool {
    ||| is_for(name, e, ".ollama"@, "Ollama (models)"@)
    ||| is_for(name, e, "huggingface"@, "HuggingFace (cache)"@)
    ||| is_for(name, e, "ms-playwright"@, "Playwright (browsers)"@)
    ||| is_for(name, e, ".cache"@, "Puppeteer (browsers)"@) && holds("puppeteer"@)
    ||| is_for(name, e, "go"@, "Go (GOPATH)"@) && holds("bin"@)
    ||| is_for(name, e, ".next"@, "Next.js (cache)"@)
    ||| is_for(name, e, ".nuxt"@, "Nuxt.js (cache)"@)
    ||| is_for(name, e, ".angular"@, "Angular (cache)"@)
    ||| is_for(name, e, ".parcel-cache"@, "Parcel (cache)"@)
    ||| is_for(name, e, "dist"@, "Build output"@) && holds("package.json"@)
    ||| is_for(name, e, ".svelte-kit"@, "SvelteKit (cache)"@)
    ||| is_for(name, e, "coverage"@, "Test coverage"@) && holds("package.json"@)
    ||| is_for(name, e, ".pytest_cache"@, "pytest (cache)"@)
    ||| is_for(name, e, "htmlcov"@, "Python coverage"@)
    ||| is_for(name, e, "CrashReporter"@, "macOS (crashes)"@)
    ||| is_for(name, e, "DiagnosticReports"@, "macOS (diagnostics)"@)
}

/// The directory name is junk of this ecosystem, where the parent directory holds these markers.
pub open spec fn is_promised_junk(
    name: Seq<u8>,
    e: Seq<char>,
    holds: spec_fn(Seq<char>) -> bool,
) -> bool {
    ||| scripting_junk(name, e, holds)
    ||| build_tool_junk(name, e, holds)
    ||| engine_junk(name, e, holds)
    ||| platform_cache_junk(name, e, holds)
    ||| developer_cache_junk(name, e, holds)
    ||| artifact_junk(name, e, holds)
}

proof fn lemma_scripting(name: Seq<u8>, holds: spec_fn(Seq<char>) -> bool)
    ensures
        forall|i: int|
            0 <= i < patterns::scripting_facts().len() && junk::applies(
                #[trigger] patterns::scripting_facts()[i],
                name,
                holds,
            ) ==> scripting_junk(name, patterns::scripting_facts()[i].ecosystem, holds),
        forall|e: Seq<char>| #[trigger]
            scripting_junk(name, e, holds) ==> exists|i: int|
                0 <= i < patterns::scripting_facts().len() && junk::applies(
                    #[trigger] patterns::scripting_facts()[i],
                    name,
                    holds,
                ),
{
    let known = patterns::scripting_facts();
    assert forall|e: Seq<char>| #[trigger] scripting_junk(name, e, holds) implies exists|i: int|
        0 <= i < known.len() && junk::applies(#[trigger] known[i], name, holds) by {
        if is_for(name, e, "node_modules"@, "Node"@) {
            assert(junk::applies(known[0], name, holds));
        }
        if is_for(name, e, ".turbo"@, "Turborepo"@) {
            assert(junk::applies(known[1], name, holds));
        }
        if is_for(name, e, "__pycache__"@, "Python"@) {
            assert(junk::applies(known[2], name, holds));
        }
        if is_for(name, e, ".tox"@, "Python (tox)"@) {
            assert(junk::applies(known[3], name, holds));
        }
        if is_for(name, e, ".eggs"@, "Python (eggs)"@) {
            assert(junk::applies(known[4], name, holds));
        }
        if is_for(name, e, ".venv"@, "Python (venv)"@) {
            assert(junk::applies(known[5], name, holds));
        }
        if is_for(name, e, "venv"@, "Python (venv)"@) && holds("pyvenv.cfg"@) {
            assert(junk::applies(known[6], name, holds));
        }
        if is_for(name, e, ".mypy_cache"@, "Python (mypy)"@) {
            assert(junk::applies(known[7], name, holds));
        }
        if is_for(name, e, ".pytest_cache"@, "Python (pytest)"@) {
            assert(junk::applies(known[8], name, holds));
        }
        if is_for(name, e, ".ruff_cache"@, "Python (ruff)"@) {
            assert(junk::applies(known[9], name, holds));
        }
        if is_for(name, e, ".pixi"@, "Pixi"@) {
            assert(junk::applies(known[10], name, holds));
        }
        if is_for(name, e, ".ipynb_checkpoints"@, "Jupyter"@) {
            assert(junk::applies(known[11], name, holds));
        }
    }
}

proof fn lemma_build_tool(name: Seq<u8>, holds: spec_fn(Seq<char>) -> bool)
    ensures
        forall|i: int|
            0 <= i < patterns::build_tool_facts().len() && junk::applies(
                #[trigger] patterns::build_tool_facts()[i],
                name,
                holds,
            ) ==> build_tool_junk(name, patterns::build_tool_facts()[i].ecosystem, holds),
        forall|e: Seq<char>| #[trigger]
            build_tool_junk(name, e, holds) ==> exists|i: int|
                0 <= i < patterns::build_tool_facts().len() && junk::applies(
                    #[trigger] patterns::build_tool_facts()[i],
                    name,
                    holds,
                ),
{
    let known = patterns::build_tool_facts();
    assert forall|e: Seq<char>| #[trigger] build_tool_junk(name, e, holds) implies exists|i: int|
        0 <= i < known.len() && junk::applies(#[trigger] known[i], name, holds) by {
        if is_for(name, e, "target"@, "Rust (Cargo)"@) && holds("Cargo.toml"@) {
            assert(junk::applies(known[0], name, holds));
        }
        if is_for(name, e, "build"@, "CMake"@) && holds("CMakeLists.txt"@) {
            assert(junk::applies(known[1], name, holds));
        }
        if is_for(name, e, "cmake-build-debug"@, "CMake"@) {
            assert(junk::applies(known[2], name, holds));
        }
        if is_for(name, e, "cmake-build-release"@, "CMake"@) {
            assert(junk::applies(known[3], name, holds));
        }
        if is_for(name, e, "vendor"@, "Composer (PHP)"@) && holds("composer.json"@) {
            assert(junk::applies(known[4], name, holds));
        }
        if is_for(name, e, "_build"@, "Elixir"@) && holds("mix.exs"@) {
            assert(junk::applies(known[5], name, holds));
        }
        if is_for(name, e, "deps"@, "Elixir"@) && holds("mix.exs"@) {
            assert(junk::applies(known[6], name, holds));
        }
        if is_for(name, e, ".godot"@, "Godot"@) {
            assert(junk::applies(known[7], name, holds));
        }
        if is_for(name, e, ".mono"@, "Godot (C#)"@) {
            assert(junk::applies(known[8], name, holds));
        }
        if is_for(name, e, ".gradle"@, "Gradle"@) {
            assert(junk::applies(known[9], name, holds));
        }
        if is_for(name, e, "build"@, "Gradle"@) && holds("build.gradle"@) {
            assert(junk::applies(known[10], name, holds));
        }
        if is_for(name, e, "build"@, "Gradle (kts)"@) && holds("build.gradle.kts"@) {
            assert(junk::applies(known[11], name, holds));
        }
    }
}

proof fn lemma_engine(name: Seq<u8>, holds: spec_fn(Seq<char>) -> bool)
    ensures
        forall|i: int|
            0 <= i < patterns::engine_facts().len() && junk::applies(
                #[trigger] patterns::engine_facts()[i],
                name,
                holds,
            ) ==> engine_junk(name, patterns::engine_facts()[i].ecosystem, holds),
        forall|e: Seq<char>| #[trigger]
            engine_junk(name, e, holds) ==> exists|i: int|
                0 <= i < patterns::engine_facts().len() && junk::applies(
                    #[trigger] patterns::engine_facts()[i],
                    name,
                    holds,
                ),
{
    let known = patterns::engine_facts();
    assert forall|e: Seq<char>| #[trigger] engine_junk(name, e, holds) implies exists|i: int|
        0 <= i < known.len() && junk::applies(#[trigger] known[i], name, holds) by {
        if is_for(name, e, "target"@, "Maven"@) && holds("pom.xml"@) {
            assert(junk::applies(known[0], name, holds));
        }
        if is_for(name, e, ".dart_tool"@, "Dart (pub)"@) {
            assert(junk::applies(known[1], name, holds));
        }
        if is_for(name, e, "build"@, "Dart (pub)"@) && holds("pubspec.yaml"@) {
            assert(junk::applies(known[2], name, holds));
        }
        if is_for(name, e, "target"@, "SBT (Scala)"@) && holds("build.sbt"@) {
            assert(junk::applies(known[3], name, holds));
        }
        if is_for(name, e, ".bsp"@, "SBT (Scala)"@) && holds("build.sbt"@) {
            assert(junk::applies(known[4], name, holds));
        }
        if is_for(name, e, ".stack-work"@, "Stack (Haskell)"@) {
            assert(junk::applies(known[5], name, holds));
        }
        if is_for(name, e, "dist-newstyle"@, "Cabal (Haskell)"@) {
            assert(junk::applies(known[6], name, holds));
        }
        if is_for(name, e, ".build"@, "Swift (SPM)"@) && holds("Package.swift"@) {
            assert(junk::applies(known[7], name, holds));
        }
        if is_for(name, e, "DerivedData"@, "Xcode"@) {
            assert(junk::applies(known[8], name, holds));
        }
        if is_for(name, e, "Library"@, "Unity"@) && holds("ProjectSettings"@) {
            assert(junk::applies(known[9], name, holds));
        }
        if is_for(name, e, "Temp"@, "Unity"@) && holds("ProjectSettings"@) {
            assert(junk::applies(known[10], name, holds));
        }
        if is_for(name, e, "Intermediate"@, "Unreal Engine"@) {
            assert(junk::applies(known[11], name, holds));
        }
        if is_for(name, e, "Saved"@, "Unreal Engine"@) {
            assert(junk::applies(known[12], name, holds));
        }
        if is_for(name, e, "DerivedDataCache"@, "Unreal Engine"@) {
            assert(junk::applies(known[13], name, holds));
        }
    }
}

proof fn lemma_platform_cache(name: Seq<u8>, holds: spec_fn(Seq<char>) -> bool)
    ensures
        forall|i: int|
            0 <= i < patterns::platform_cache_facts().len() && junk::applies(
                #[trigger] patterns::platform_cache_facts()[i],
                name,
                holds,
            ) ==> platform_cache_junk(name, patterns::platform_cache_facts()[i].ecosystem, holds),
        forall|e: Seq<char>| #[trigger]
            platform_cache_junk(name, e, holds) ==> exists|i: int|
                0 <= i < patterns::platform_cache_facts().len() && junk::applies(
                    #[trigger] patterns::platform_cache_facts()[i],
                    name,
                    holds,
                ),
{
    let known = patterns::platform_cache_facts();
    assert forall|e: Seq<char>| #[trigger] platform_cache_junk(name, e, holds) implies exists|i: int|
        0 <= i < known.len() && junk::applies(#[trigger] known[i], name, holds) by {
        if is_for(name, e, "zig-cache"@, "Zig"@) {
            assert(junk::applies(known[0], name, holds));
        }
        if is_for(name, e, "zig-out"@, "Zig"@) {
            assert(junk::applies(known[1], name, holds));
        }
        if is_for(name, e, ".zig-cache"@, "Zig"@) {
            assert(junk::applies(known[2], name, holds));
        }
        if is_for(name, e, "bin"@, ".NET"@) && holds("*.csproj"@) {
            assert(junk::applies(known[3], name, holds));
        }
        if is_for(name, e, "obj"@, ".NET"@) && holds("*.csproj"@) {
            assert(junk::applies(known[4], name, holds));
        }
        if is_for(name, e, "bin"@, ".NET (F#)"@) && holds("*.fsproj"@) {
            assert(junk::applies(known[5], name, holds));
        }
        if is_for(name, e, "obj"@, ".NET (F#)"@) && holds("*.fsproj"@) {
            assert(junk::applies(known[6], name, holds));
        }
        if is_for(name, e, ".terraform"@, "Terraform"@) {
            assert(junk::applies(known[7], name, holds));
        }
        if is_for(name, e, "Pods"@, "React Native (iOS)"@) && holds("Podfile"@) {
            assert(junk::applies(known[8], name, holds));
        }
        if is_for(name, e, "com.docker.docker"@, "Docker Desktop"@) {
            assert(junk::applies(known[9], name, holds));
        }
        if is_for(name, e, "Homebrew"@, "Homebrew (cache)"@) {
            assert(junk::applies(known[10], name, holds));
        }
        if is_for(name, e, "com.apple.Safari"@, "Safari (cache)"@) {
            assert(junk::applies(known[11], name, holds));
        }
        if is_for(name, e, "com.apple.WebKit.Networking"@, "WebKit (cache)"@) {
            assert(junk::applies(known[12], name, holds));
        }
        if is_for(name, e, "com.apple.WebKit.WebContent"@, "WebKit (cache)"@) {
            assert(junk::applies(known[13], name, holds));
        }
        if is_for(name, e, "com.google.Chrome"@, "Chrome (cache)"@) {
            assert(junk::applies(known[14], name, holds));
        }
        if is_for(name, e, "Google"@, "Chrome (cache)"@) {
            assert(junk::applies(known[15], name, holds));
        }
        if is_for(name, e, "Firefox"@, "Firefox (cache)"@) {
            assert(junk::applies(known[16], name, holds));
        }
        if is_for(name, e, "org.mozilla.firefox"@, "Firefox (cache)"@) {
            assert(junk::applies(known[17], name, holds));
        }
        if is_for(name, e, "com.microsoft.Edge"@, "Edge (cache)"@) {
            assert(junk::applies(known[18], name, holds));
        }
        if is_for(name, e, "com.brave.Browser"@, "Brave (cache)"@) {
            assert(junk::applies(known[19], name, holds));
        }
        if is_for(name, e, "company.thebrowser.Browser"@, "Arc (cache)"@) {
            assert(junk::applies(known[20], name, holds));
        }
        if is_for(name, e, "com.operasoftware.Opera"@, "Opera (cache)"@) {
            assert(junk::applies(known[21], name, holds));
        }
    }
}

proof fn lemma_developer_cache(name: Seq<u8>, holds: spec_fn(Seq<char>) -> bool)
    ensures
        forall|i: int|
            0 <= i < patterns::developer_cache_facts().len() && junk::applies(
                #[trigger] patterns::developer_cache_facts()[i],
                name,
                holds,
            ) ==> developer_cache_junk(name, patterns::developer_cache_facts()[i].ecosystem, holds),
        forall|e: Seq<char>| #[trigger]
            developer_cache_junk(name, e, holds) ==> exists|i: int|
                0 <= i < patterns::developer_cache_facts().len() && junk::applies(
                    #[trigger] patterns::developer_cache_facts()[i],
                    name,
                    holds,
                ),
{
    let known = patterns::developer_cache_facts();
    assert forall|e: Seq<char>| #[trigger] developer_cache_junk(name, e, holds) implies exists|i: int|
        0 <= i < known.len() && junk::applies(#[trigger] known[i], name, holds) by {
        if is_for(name, e, "Code"@, "VS Code (cache)"@) && holds("CachedData"@) {
            assert(junk::applies(known[0], name, holds));
        }
        if is_for(name, e, "Cursor"@, "Cursor (cache)"@) && holds("CachedData"@) {
            assert(junk::applies(known[1], name, holds));
        }
        if is_for(name, e, ".vscode"@, "VS Code"@) {
            assert(junk::applies(known[2], name, holds));
        }
        if is_for(name, e, "DerivedData"@, "Xcode"@) {
            assert(junk::applies(known[3], name, holds));
        }
        if is_for(name, e, "Archives"@, "Xcode (archives)"@) {
            assert(junk::applies(known[4], name, holds));
        }
        if is_for(name, e, "iOS DeviceSupport"@, "Xcode (device)"@) {
            assert(junk::applies(known[5], name, holds));
        }
        if is_for(name, e, "watchOS DeviceSupport"@, "Xcode (device)"@) {
            assert(junk::applies(known[6], name, holds));
        }
        if is_for(name, e, ".npm"@, "npm (global cache)"@) {
            assert(junk::applies(known[7], name, holds));
        }
        if is_for(name, e, ".yarn"@, "Yarn (global cache)"@) {
            assert(junk::applies(known[8], name, holds));
        }
        if is_for(name, e, ".pnpm-store"@, "pnpm (store)"@) {
            assert(junk::applies(known[9], name, holds));
        }
        if is_for(name, e, ".bun"@, "Bun (cache)"@) {
            assert(junk::applies(known[10], name, holds));
        }
        if is_for(name, e, ".deno"@, "Deno (cache)"@) {
            assert(junk::applies(known[11], name, holds));
        }
        if is_for(name, e, ".cargo"@, "Cargo (global cache)"@) {
            assert(junk::applies(known[12], name, holds));
        }
        if is_for(name, e, ".rustup"@, "Rustup (toolchains)"@) {
            assert(junk::applies(known[13], name, holds));
        }
        if is_for(name, e, ".pub-cache"@, "Dart (pub cache)"@) {
            assert(junk::applies(known[14], name, holds));
        }
        if is_for(name, e, ".cache"@, "XDG cache"@) {
            assert(junk::applies(known[15], name, holds));
        }
        if is_for(name, e, ".cocoapods"@, "CocoaPods (cache)"@) {
            assert(junk::applies(known[16], name, holds));
        }
        if is_for(name, e, ".gradle"@, "Gradle (global cache)"@) {
            assert(junk::applies(known[17], name, holds));
        }
        if is_for(name, e, ".m2"@, "Maven (local repo)"@) {
            assert(junk::applies(known[18], name, holds));
        }
        if is_for(name, e, ".ivy2"@, "Ivy/SBT (cache)"@) {
            assert(junk::applies(known[19], name, holds));
        }
        if is_for(name, e, ".sbt"@, "SBT (global)"@) {
            assert(junk::applies(known[20], name, holds));
        }
        if is_for(name, e, ".conda"@, "Conda (cache)"@) {
            assert(junk::applies(known[21], name, holds));
        }
        if is_for(name, e, ".local"@, "pip/pipx (cache)"@) && holds("share"@) {
            assert(junk::applies(known[22], name, holds));
        }
    }
}

proof fn lemma_artifact(name: Seq<u8>, holds: spec_fn(Seq<char>) -> bool)
    ensures
        forall|i: int|
            0 <= i < patterns::artifact_facts().len() && junk::applies(
                #[trigger] patterns::artifact_facts()[i],
                name,
                holds,
            ) ==> artifact_junk(name, patterns::artifact_facts()[i].ecosystem, holds),
        forall|e: Seq<char>| #[trigger]
            artifact_junk(name, e, holds) ==> exists|i: int|
                0 <= i < patterns::artifact_facts().len() && junk::applies(
                    #[trigger] patterns::artifact_facts()[i],
                    name,
                    holds,
                ),
{
    let known = patterns::artifact_facts();
    assert forall|e: Seq<char>| #[trigger] artifact_junk(name, e, holds) implies exists|i: int|
        0 <= i < known.len() && junk::applies(#[trigger] known[i], name, holds) by {
        if is_for(name, e, ".ollama"@, "Ollama (models)"@) {
            assert(junk::applies(known[0], name, holds));
        }
        if is_for(name, e, "huggingface"@, "HuggingFace (cache)"@) {
            assert(junk::applies(known[1], name, holds));
        }
        if is_for(name, e, "ms-playwright"@, "Playwright (browsers)"@) {
            assert(junk::applies(known[2], name, holds));
        }
        if is_for(name, e, ".cache"@, "Puppeteer (browsers)"@) && holds("puppeteer"@) {
            assert(junk::applies(known[3], name, holds));
        }
        if is_for(name, e, "go"@, "Go (GOPATH)"@) && holds("bin"@) {
            assert(junk::applies(known[4], name, holds));
        }
        if is_for(name, e, ".next"@, "Next.js (cache)"@) {
            assert(junk::applies(known[5], name, holds));
        }
        if is_for(name, e, ".nuxt"@, "Nuxt.js (cache)"@) {
            assert(junk::applies(known[6], name, holds));
        }
        if is_for(name, e, ".angular"@, "Angular (cache)"@) {
            assert(junk::applies(known[7], name, holds));
        }
        if is_for(name, e, ".parcel-cache"@, "Parcel (cache)"@) {
            assert(junk::applies(known[8], name, holds));
        }
        if is_for(name, e, "dist"@, "Build output"@) && holds("package.json"@) {
            assert(junk::applies(known[9], name, holds));
        }
        if is_for(name, e, ".svelte-kit"@, "SvelteKit (cache)"@) {
            assert(junk::applies(known[10], name, holds));
        }
        if is_for(name, e, "coverage"@, "Test coverage"@) && holds("package.json"@) {
            assert(junk::applies(known[11], name, holds));
        }
        if is_for(name, e, ".pytest_cache"@, "pytest (cache)"@) {
            assert(junk::applies(known[12], name, holds));
        }
        if is_for(name, e, "htmlcov"@, "Python coverage"@) {
            assert(junk::applies(known[13], name, holds));
        }
        if is_for(name, e, "CrashReporter"@, "macOS (crashes)"@) {
            assert(junk::applies(known[14], name, holds));
        }
        if is_for(name, e, "DiagnosticReports"@, "macOS (diagnostics)"@) {
            assert(junk::applies(known[15], name, holds));
        }
    }
}

/// A directory is junk exactly where the table promises it: by its whole name, and for a name that
/// needs a marker only where the parent directory holds one of those that go with it. The
/// ecosystem is one that goes with the name and the markers that are held.
pub proof fn junk_is_what_the_table_promises(name: Seq<u8>, holds: spec_fn(Seq<char>) -> bool)
    ensures
        match junk::verdict(patterns::known_facts(), name, holds, 0) {
            Some(e) => is_promised_junk(name, e, holds),
            None => forall|e: Seq<char>| !(#[trigger] is_promised_junk(name, e, holds)),
        },
{
    let known = patterns::known_facts();
    let scripting = patterns::scripting_facts();
    let build_tool = patterns::build_tool_facts();
    let engine = patterns::engine_facts();
    let platform_cache = patterns::platform_cache_facts();
    let developer_cache = patterns::developer_cache_facts();
    let artifact = patterns::artifact_facts();
    lemma_scripting(name, holds);
    lemma_build_tool(name, holds);
    lemma_engine(name, holds);
    lemma_platform_cache(name, holds);
    lemma_developer_cache(name, holds);
    lemma_artifact(name, holds);
    junk::first_pattern_decides(known, name, holds);
    if let Some(e) = junk::verdict(known, name, holds, 0) {
        let i = choose|i: int|
            0 <= i < known.len() && junk::is_first(known, name, holds, 0, i) && e == (
            #[trigger] known[i]).ecosystem;
        assert(junk::applies(known[i], name, holds));
        if i < 12 {
            assert(known[i] == scripting[i - 0]);
        }         else if i < 24 {
            assert(known[i] == build_tool[i - 12]);
        }         else if i < 38 {
            assert(known[i] == engine[i - 24]);
        }         else if i < 60 {
            assert(known[i] == platform_cache[i - 38]);
        }         else if i < 83 {
            assert(known[i] == developer_cache[i - 60]);
        }         else if i < 99 {
            assert(known[i] == artifact[i - 83]);
        }
    } else {
        assert forall|e: Seq<char>| !(#[trigger] is_promised_junk(name, e, holds)) by {
            if scripting_junk(name, e, holds) {
                let i = choose|i: int|
                    0 <= i < scripting.len() && junk::applies(
                        #[trigger] scripting[i],
                        name,
                        holds,
                    );
                assert(known[0 + i] == scripting[i]);
            }
            if build_tool_junk(name, e, holds) {
                let i = choose|i: int|
                    0 <= i < build_tool.len() && junk::applies(
                        #[trigger] build_tool[i],
                        name,
                        holds,
                    );
                assert(known[12 + i] == build_tool[i]);
            }
            if engine_junk(name, e, holds) {
                let i = choose|i: int|
                    0 <= i < engine.len() && junk::applies(
                        #[trigger] engine[i],
                        name,
                        holds,
                    );
                assert(known[24 + i] == engine[i]);
            }
            if platform_cache_junk(name, e, holds) {
                let i = choose|i: int|
                    0 <= i < platform_cache.len() && junk::applies(
                        #[trigger] platform_cache[i],
                        name,
                        holds,
                    );
                assert(known[38 + i] == platform_cache[i]);
            }
            if developer_cache_junk(name, e, holds) {
                let i = choose|i: int|
                    0 <= i < developer_cache.len() && junk::applies(
                        #[trigger] developer_cache[i],
                        name,
                        holds,
                    );
                assert(known[60 + i] == developer_cache[i]);
            }
            if artifact_junk(name, e, holds) {
                let i = choose|i: int|
                    0 <= i < artifact.len() && junk::applies(
                        #[trigger] artifact[i],
                        name,
                        holds,
                    );
                assert(known[83 + i] == artifact[i]);
            }
        }
    }
}

/// Where one name goes with several tools, the patterns stand in this order, and so the first one
/// whose marker is held names the ecosystem.
pub proof fn patterns_of_one_name_stand_in_order()
    ensures
        patterns::known_facts().len() == 99,
        patterns::known_facts()[8].dir_name == ".pytest_cache"@ && patterns::known_facts()[8].ecosystem
            == "Python (pytest)"@ && patterns::known_facts()[8].marker == None::<Seq<char>>,
        patterns::known_facts()[95].dir_name == ".pytest_cache"@ && patterns::known_facts()[95].ecosystem
            == "pytest (cache)"@ && patterns::known_facts()[95].marker == None::<Seq<char>>,
        patterns::known_facts()[12].dir_name == "target"@ && patterns::known_facts()[12].ecosystem
            == "Rust (Cargo)"@ && patterns::known_facts()[12].marker == Some("Cargo.toml"@),
        patterns::known_facts()[24].dir_name == "target"@ && patterns::known_facts()[24].ecosystem
            == "Maven"@ && patterns::known_facts()[24].marker == Some("pom.xml"@),
        patterns::known_facts()[27].dir_name == "target"@ && patterns::known_facts()[27].ecosystem
            == "SBT (Scala)"@ && patterns::known_facts()[27].marker == Some("build.sbt"@),
        patterns::known_facts()[13].dir_name == "build"@ && patterns::known_facts()[13].ecosystem
            == "CMake"@ && patterns::known_facts()[13].marker == Some("CMakeLists.txt"@),
        patterns::known_facts()[22].dir_name == "build"@ && patterns::known_facts()[22].ecosystem
            == "Gradle"@ && patterns::known_facts()[22].marker == Some("build.gradle"@),
        patterns::known_facts()[23].dir_name == "build"@ && patterns::known_facts()[23].ecosystem
            == "Gradle (kts)"@ && patterns::known_facts()[23].marker == Some("build.gradle.kts"@),
        patterns::known_facts()[26].dir_name == "build"@ && patterns::known_facts()[26].ecosystem
            == "Dart (pub)"@ && patterns::known_facts()[26].marker == Some("pubspec.yaml"@),
        patterns::known_facts()[21].dir_name == ".gradle"@ && patterns::known_facts()[21].ecosystem
            == "Gradle"@ && patterns::known_facts()[21].marker == None::<Seq<char>>,
        patterns::known_facts()[77].dir_name == ".gradle"@ && patterns::known_facts()[77].ecosystem
            == "Gradle (global cache)"@ && patterns::known_facts()[77].marker == None::<Seq<char>>,
        patterns::known_facts()[32].dir_name == "DerivedData"@ && patterns::known_facts()[32].ecosystem
            == "Xcode"@ && patterns::known_facts()[32].marker == None::<Seq<char>>,
        patterns::known_facts()[63].dir_name == "DerivedData"@ && patterns::known_facts()[63].ecosystem
            == "Xcode"@ && patterns::known_facts()[63].marker == None::<Seq<char>>,
        patterns::known_facts()[41].dir_name == "bin"@ && patterns::known_facts()[41].ecosystem
            == ".NET"@ && patterns::known_facts()[41].marker == Some("*.csproj"@),
        patterns::known_facts()[43].dir_name == "bin"@ && patterns::known_facts()[43].ecosystem
            == ".NET (F#)"@ && patterns::known_facts()[43].marker == Some("*.fsproj"@),
        patterns::known_facts()[42].dir_name == "obj"@ && patterns::known_facts()[42].ecosystem
            == ".NET"@ && patterns::known_facts()[42].marker == Some("*.csproj"@),
        patterns::known_facts()[44].dir_name == "obj"@ && patterns::known_facts()[44].ecosystem
            == ".NET (F#)"@ && patterns::known_facts()[44].marker == Some("*.fsproj"@),
        patterns::known_facts()[75].dir_name == ".cache"@ && patterns::known_facts()[75].ecosystem
            == "XDG cache"@ && patterns::known_facts()[75].marker == None::<Seq<char>>,
        patterns::known_facts()[86].dir_name == ".cache"@ && patterns::known_facts()[86].ecosystem
            == "Puppeteer (browsers)"@ && patterns::known_facts()[86].marker == Some("puppeteer"@),
{
}

/// No directory is junk for want of markers: with none held, a name that needs one is not junk.
pub proof fn without_a_marker_only_telling_names_are_junk(
    name: Seq<u8>,
    holds: spec_fn(Seq<char>) -> bool,
    e: Seq<char>,
)
    requires
        forall|marker: Seq<char>| !(#[trigger] holds(marker)),
        junk::verdict(patterns::known_facts(), name, holds, 0) == Some(e),
    ensures
        is_for(name, e, "node_modules"@, "Node"@)
            || is_for(name, e, ".turbo"@, "Turborepo"@)
            || is_for(name, e, "__pycache__"@, "Python"@)
            || is_for(name, e, ".tox"@, "Python (tox)"@)
            || is_for(name, e, ".eggs"@, "Python (eggs)"@)
            || is_for(name, e, ".venv"@, "Python (venv)"@)
            || is_for(name, e, ".mypy_cache"@, "Python (mypy)"@)
            || is_for(name, e, ".pytest_cache"@, "Python (pytest)"@)
            || is_for(name, e, ".ruff_cache"@, "Python (ruff)"@)
            || is_for(name, e, ".pixi"@, "Pixi"@)
            || is_for(name, e, ".ipynb_checkpoints"@, "Jupyter"@)
            || is_for(name, e, "cmake-build-debug"@, "CMake"@)
            || is_for(name, e, "cmake-build-release"@, "CMake"@)
            || is_for(name, e, ".godot"@, "Godot"@)
            || is_for(name, e, ".mono"@, "Godot (C#)"@)
            || is_for(name, e, ".gradle"@, "Gradle"@)
            || is_for(name, e, ".dart_tool"@, "Dart (pub)"@)
            || is_for(name, e, ".stack-work"@, "Stack (Haskell)"@)
            || is_for(name, e, "dist-newstyle"@, "Cabal (Haskell)"@)
            || is_for(name, e, "DerivedData"@, "Xcode"@)
            || is_for(name, e, "Intermediate"@, "Unreal Engine"@)
            || is_for(name, e, "Saved"@, "Unreal Engine"@)
            || is_for(name, e, "DerivedDataCache"@, "Unreal Engine"@)
            || is_for(name, e, "zig-cache"@, "Zig"@)
            || is_for(name, e, "zig-out"@, "Zig"@)
            || is_for(name, e, ".zig-cache"@, "Zig"@)
            || is_for(name, e, ".terraform"@, "Terraform"@)
            || is_for(name, e, "com.docker.docker"@, "Docker Desktop"@)
            || is_for(name, e, "Homebrew"@, "Homebrew (cache)"@)
            || is_for(name, e, "com.apple.Safari"@, "Safari (cache)"@)
            || is_for(name, e, "com.apple.WebKit.Networking"@, "WebKit (cache)"@)
            || is_for(name, e, "com.apple.WebKit.WebContent"@, "WebKit (cache)"@)
            || is_for(name, e, "com.google.Chrome"@, "Chrome (cache)"@)
            || is_for(name, e, "Google"@, "Chrome (cache)"@)
            || is_for(name, e, "Firefox"@, "Firefox (cache)"@)
            || is_for(name, e, "org.mozilla.firefox"@, "Firefox (cache)"@)
            || is_for(name, e, "com.microsoft.Edge"@, "Edge (cache)"@)
            || is_for(name, e, "com.brave.Browser"@, "Brave (cache)"@)
            || is_for(name, e, "company.thebrowser.Browser"@, "Arc (cache)"@)
            || is_for(name, e, "com.operasoftware.Opera"@, "Opera (cache)"@)
            || is_for(name, e, ".vscode"@, "VS Code"@)
            || is_for(name, e, "DerivedData"@, "Xcode"@)
            || is_for(name, e, "Archives"@, "Xcode (archives)"@)
            || is_for(name, e, "iOS DeviceSupport"@, "Xcode (device)"@)
            || is_for(name, e, "watchOS DeviceSupport"@, "Xcode (device)"@)
            || is_for(name, e, ".npm"@, "npm (global cache)"@)
            || is_for(name, e, ".yarn"@, "Yarn (global cache)"@)
            || is_for(name, e, ".pnpm-store"@, "pnpm (store)"@)
            || is_for(name, e, ".bun"@, "Bun (cache)"@)
            || is_for(name, e, ".deno"@, "Deno (cache)"@)
            || is_for(name, e, ".cargo"@, "Cargo (global cache)"@)
            || is_for(name, e, ".rustup"@, "Rustup (toolchains)"@)
            || is_for(name, e, ".pub-cache"@, "Dart (pub cache)"@)
            || is_for(name, e, ".cache"@, "XDG cache"@)
            || is_for(name, e, ".cocoapods"@, "CocoaPods (cache)"@)
            || is_for(name, e, ".gradle"@, "Gradle (global cache)"@)
            || is_for(name, e, ".m2"@, "Maven (local repo)"@)
            || is_for(name, e, ".ivy2"@, "Ivy/SBT (cache)"@)
            || is_for(name, e, ".sbt"@, "SBT (global)"@)
            || is_for(name, e, ".conda"@, "Conda (cache)"@)
            || is_for(name, e, ".ollama"@, "Ollama (models)"@)
            || is_for(name, e, "huggingface"@, "HuggingFace (cache)"@)
            || is_for(name, e, "ms-playwright"@, "Playwright (browsers)"@)
            || is_for(name, e, ".next"@, "Next.js (cache)"@)
            || is_for(name, e, ".nuxt"@, "Nuxt.js (cache)"@)
            || is_for(name, e, ".angular"@, "Angular (cache)"@)
            || is_for(name, e, ".parcel-cache"@, "Parcel (cache)"@)
            || is_for(name, e, ".svelte-kit"@, "SvelteKit (cache)"@)
            || is_for(name, e, ".pytest_cache"@, "pytest (cache)"@)
            || is_for(name, e, "htmlcov"@, "Python coverage"@)
            || is_for(name, e, "CrashReporter"@, "macOS (crashes)"@)
            || is_for(name, e, "DiagnosticReports"@, "macOS (diagnostics)"@),
{
    junk_is_what_the_table_promises(name, holds);
}

// ── One step after another ──────────────────────────────────────────────

/// The first pattern for a name that has not been ruled out comes next: the ones below `from` are
/// ruled out, and no pattern for the name is passed over.
pub open spec fn comes_next(
    patterns: Seq<PatternFacts>,
    name: Seq<u8>,
    from: int,
    step: StepFacts,
) -> bool {
    match step {
        StepFacts::NotJunk => forall|j: int|
            from <= j < patterns.len() ==> vstd::utf8::encode_utf8(
                (#[trigger] patterns[j]).dir_name,
            ) != name,
        StepFacts::Junk(e) => exists|i: int|
            from <= i < patterns.len() && is_next(patterns, name, from, i) && (
            #[trigger] patterns[i]).marker is None && patterns[i].ecosystem == e,
        StepFacts::Ask(i, marker) => from <= i < patterns.len() && is_next(patterns, name, from, i)
            && patterns[i].marker == Some(marker),
    }
}

/// Pattern `i` is for the name, and none before it from `from` on is.
pub open spec fn is_next(patterns: Seq<PatternFacts>, name: Seq<u8>, from: int, i: int) -> bool {
    &&& vstd::utf8::encode_utf8(patterns[i].dir_name) == name
    &&& forall|j: int|
        from <= j < i ==> vstd::utf8::encode_utf8((#[trigger] patterns[j]).dir_name) != name
}

/// The matching of a name goes through the patterns for it one by one: the first one decides or
/// asks, a held marker decides for its pattern, and a missing one leads to the next pattern.
pub proof fn matching_goes_pattern_by_pattern(
    patterns: Seq<PatternFacts>,
    name: Seq<u8>,
    index: usize,
)
    requires
        index < patterns.len(),
    ensures
        comes_next(patterns, name, 0, junk::step_after(patterns, name, None)),
        comes_next(
            patterns,
            name,
            index + 1,
            junk::step_after(patterns, name, Some((index, false))),
        ),
        junk::step_after(patterns, name, Some((index, true))) == StepFacts::Junk(
            patterns[index as int].ecosystem,
        ),
{
    lemma_next(patterns, name, 0);
    lemma_next(patterns, name, index + 1);
}

proof fn lemma_next(patterns: Seq<PatternFacts>, name: Seq<u8>, from: int)
    requires
        0 <= from <= patterns.len(),
    ensures
        comes_next(patterns, name, from, junk::step_from(patterns, name, from)),
{
    junk::lemma_next_named(patterns, name, from);
    let i = junk::next_named(patterns, name, from);
    assert forall|j: int| from <= j < i && j < patterns.len() implies vstd::utf8::encode_utf8(
        (#[trigger] patterns[j]).dir_name,
    ) != name by {
        assert(!junk::is_named(patterns[j], name));
    }
    if i < patterns.len() {
        assert(is_next(patterns, name, from, i));
    }
}

/// Patterns and steps are taken as they stand.
pub proof fn patterns_are_taken_as_they_stand(p: JunkPattern, step: JunkStep)
    ensures
        p@.dir_name == p.dir_name@,
        p@.ecosystem == p.ecosystem@,
        p@.marker is Some <==> p.marker is Some,
        p.marker is Some ==> p@.marker->0 == p.marker->0@,
        match step {
            JunkStep::Junk(e) => step@ == StepFacts::Junk(e@),
            JunkStep::Ask(i, marker) => step@ == StepFacts::Ask(i as int, marker@),
            JunkStep::NotJunk => step@ == StepFacts::NotJunk,
        },
{
}

// ── Markers ─────────────────────────────────────────────────────────────

/// A marker stands for an extension exactly where it is a star, a dot and the extension.
pub proof fn markers_with_a_star_stand_for_an_extension(marker: Seq<u8>)
    ensures
        junk::is_wildcard(marker) <==> exists|extension: Seq<u8>|
            marker == seq![42u8, 46u8] + #[trigger] same(extension),
{
    if junk::is_wildcard(marker) {
        assert(marker =~= seq![42u8, 46u8] + same(marker.skip(2)));
    }
    if exists|extension: Seq<u8>| marker == seq![42u8, 46u8] + #[trigger] same(extension) {
        let extension = choose|extension: Seq<u8>|
            marker == seq![42u8, 46u8] + #[trigger] same(extension);
        assert(marker[0] == 42 && marker[1] == 46);
    }
}

pub open spec fn same(bytes: Seq<u8>) -> Seq<u8> {
    bytes
}

/// The extension of a name is what stands behind its last dot, where something stands before that
/// dot; the name `..` has none.
pub proof fn extensions_stand_behind_the_last_dot(name: Seq<u8>, stem: Seq<u8>, end: Seq<u8>)
    ensures
        (forall|i: int| 0 <= i < end.len() ==> #[trigger] end[i] != 46) && stem.len() > 0 && name
            == stem + seq![46u8] + end && !(name.len() == 2 && name[0] == 46 && name[1] == 46)
            ==> paths::extension_of(name) == Some(end),
        (forall|i: int| 0 < i < name.len() ==> #[trigger] name[i] != 46) ==> paths::extension_of(
            name,
        ) is None,
        paths::extension_of(name) == Some(end) ==> (forall|i: int|
            0 <= i < end.len() ==> #[trigger] end[i] != 46) && name.len() > end.len() + 1
            && name.skip(name.len() - end.len()) == end && name[name.len() - end.len() - 1] == 46,
{
    lemma_last_dot(name);
    let d = paths::last_dot(name);
    if (forall|i: int| 0 <= i < end.len() ==> #[trigger] end[i] != 46) && stem.len() > 0 && name
        == stem + seq![46u8] + end && !(name.len() == 2 && name[0] == 46 && name[1] == 46) {
        let k = stem.len() as int;
        assert(name[k] == 46);
        if d > k {
            assert(name[d] == end[d - k - 1]);
        }
        assert(name.skip(k + 1) =~= end);
    }
    if paths::extension_of(name) == Some(end) {
        assert forall|i: int| 0 <= i < end.len() implies #[trigger] end[i] != 46 by {
            assert(end[i] == name[d + 1 + i]);
        }
        assert(name.len() - end.len() == d + 1);
    }
}

proof fn lemma_last_dot(name: Seq<u8>)
    ensures
        -1 <= paths::last_dot(name) < name.len(),
        paths::last_dot(name) >= 0 ==> name[paths::last_dot(name)] == 46,
        forall|i: int| paths::last_dot(name) < i < name.len() ==> #[trigger] name[i] != 46,
    decreases name.len(),
{
    if name.len() > 0 && name.last() != 46 {
        lemma_last_dot(name.drop_last());
        assert forall|i: int|
            paths::last_dot(name) < i < name.len() implies #[trigger] name[i] != 46 by {
            if i < name.len() - 1 {
                assert(name.drop_last()[i] == name[i]);
            }
        }
    }
}

/// A marker is looked for in the parent directory itself: by its name, or by the extension that
/// stands behind a star and a dot.
pub proof fn markers_are_looked_for_in_the_parent(parent: Seq<u8>, marker: Seq<u8>)
    ensures
        marker.len() >= 2 && marker[0] == 42 && marker[1] == 46 ==> junk::probe_of(parent, marker)
            == ProbeFacts::Extension(marker.subrange(2, marker.len() as int)),
        paths::is_file_name(marker) && !(marker.len() >= 2 && marker[0] == 42 && marker[1] == 46)
            ==> (junk::probe_of(parent, marker) matches ProbeFacts::Path(path)
            && paths::components(path) == paths::components(parent).push(
            paths::Component::Normal(marker),
        )),
{
    if paths::is_file_name(marker) {
        paths::joining_adds_one_component(parent, marker);
    }
}

/// A marker with a star is held where one listed name or more has the extension.
pub proof fn one_name_with_the_extension_is_enough(
    a: Seq<Seq<u8>>,
    name: Seq<u8>,
    b: Seq<Seq<u8>>,
    extension: Seq<u8>,
)
    ensures
        junk::has_extension(a + b, extension) ==> junk::has_extension(
            a + seq![name] + b,
            extension,
        ),
        paths::extension_of(name) == Some(extension) ==> junk::has_extension(
            a + seq![name] + b,
            extension,
        ),
        paths::extension_of(name) != Some(extension) && !junk::has_extension(a + b, extension)
            ==> !junk::has_extension(a + seq![name] + b, extension),
        !junk::has_extension(seq![], extension),
{
    let all = a + seq![name] + b;
    let n = a.len() as int;
    assert(all[n] == name);
    assert forall|i: int| 0 <= i < n implies #[trigger] (a + b)[i] == all[i] by {}
    assert forall|i: int| n <= i < (a + b).len() implies #[trigger] (a + b)[i] == all[i + 1] by {}
    if junk::has_extension(a + b, extension) {
        let i = choose|i: int|
            0 <= i < (a + b).len() && paths::extension_of(#[trigger] (a + b)[i]) == Some(
                extension,
            );
        if i < n {
            assert(paths::extension_of(all[i]) == Some(extension));
        } else {
            assert(paths::extension_of(all[i + 1]) == Some(extension));
        }
    }
    if junk::has_extension(all, extension) && paths::extension_of(name) != Some(extension) {
        let i = choose|i: int|
            0 <= i < all.len() && paths::extension_of(#[trigger] all[i]) == Some(extension);
        if i < n {
            assert(paths::extension_of((a + b)[i]) == Some(extension));
        } else {
            assert(paths::extension_of((a + b)[i - 1]) == Some(extension));
        }
    }
}

} // verus!
