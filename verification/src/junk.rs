//! Junk directories: which names give them away, and how large they are on disk.
//!
//! A pattern matches the name of a directory. An ambiguous name, such as `target` or `build`,
//! counts only where its parent holds a marker file.

use vstd::prelude::*;

use crate::paths::{extension, join, same_bytes};
use crate::paths;
use crate::sums;

verus! {

/// A directory name that stands for junk.
#[derive(Debug, Clone, Copy)]
pub struct JunkPattern {
    /// The name of the directory, matched case-sensitively.
    pub dir_name: &'static str,
    /// What made the directory, as shown to the user.
    pub ecosystem: &'static str,
    /// What the parent directory has to hold for the name to count.
    pub marker: Option<&'static str>,
}

/// What a [`JunkPattern`] says.
pub struct PatternFacts {
    pub dir_name: Seq<char>,
    pub ecosystem: Seq<char>,
    pub marker: Option<Seq<char>>,
}

impl View for JunkPattern {
    type V = PatternFacts;

    open spec fn view(&self) -> PatternFacts {
        PatternFacts {
            dir_name: self.dir_name@,
            ecosystem: self.ecosystem@,
            marker: match self.marker {
                Some(marker) => Some(marker@),
                None => None,
            },
        }
    }
}

pub open spec fn facts_of(patterns: Seq<JunkPattern>) -> Seq<PatternFacts> {
    patterns.map_values(|p: JunkPattern| p@)
}

// ── Matching ────────────────────────────────────────────────────────────

/// The directory name of `p` is `name`.
pub open spec fn is_named(p: PatternFacts, name: Seq<u8>) -> bool {
    vstd::utf8::encode_utf8(p.dir_name) == name
}

/// The index of the first pattern for `name` at or after `from`, or the number of patterns.
pub open spec fn next_named(patterns: Seq<PatternFacts>, name: Seq<u8>, from: int) -> int
    decreases patterns.len() - from,
{
    if from >= patterns.len() {
        patterns.len() as int
    } else if is_named(patterns[from], name) {
        from
    } else {
        next_named(patterns, name, from + 1)
    }
}

/// How far the matching of a directory name has come.
#[derive(Debug)]
pub enum JunkStep {
    /// It is junk of this ecosystem.
    Junk(&'static str),
    /// It is junk if the parent directory holds this marker of the pattern with this index.
    Ask(usize, &'static str),
    /// It is not junk.
    NotJunk,
}

/// What a [`JunkStep`] says.
pub enum StepFacts {
    Junk(Seq<char>),
    Ask(int, Seq<char>),
    NotJunk,
}

impl View for JunkStep {
    type V = StepFacts;

    open spec fn view(&self) -> StepFacts {
        match self {
            JunkStep::Junk(ecosystem) => StepFacts::Junk(ecosystem@),
            JunkStep::Ask(index, marker) => StepFacts::Ask(*index as int, marker@),
            JunkStep::NotJunk => StepFacts::NotJunk,
        }
    }
}

/// The next step once the patterns below `from` are ruled out.
pub open spec fn step_from(patterns: Seq<PatternFacts>, name: Seq<u8>, from: int) -> StepFacts {
    let i = next_named(patterns, name, from);
    if i >= patterns.len() {
        StepFacts::NotJunk
    } else {
        match patterns[i].marker {
            None => StepFacts::Junk(patterns[i].ecosystem),
            Some(marker) => StepFacts::Ask(i, marker),
        }
    }
}

/// The next step: the first one, or the one after the answer for a pattern's marker.
pub open spec fn step_after(
    patterns: Seq<PatternFacts>,
    name: Seq<u8>,
    answered: Option<(usize, bool)>,
) -> StepFacts {
    match answered {
        None => step_from(patterns, name, 0),
        Some((index, true)) => StepFacts::Junk(patterns[index as int].ecosystem),
        Some((index, false)) => step_from(patterns, name, index + 1),
    }
}

/// Whether the directory `dir_name` is junk: the first step, or the one that follows from the
/// answer to the last [`JunkStep::Ask`].
pub fn match_junk(
    patterns: &[JunkPattern],
    dir_name: &[u8],
    answered: Option<(usize, bool)>,
) -> (step: JunkStep)
    requires
        answered matches Some((index, _)) ==> index < patterns@.len(),
    ensures
        step@ == step_after(facts_of(patterns@), dir_name@, answered),
        step matches JunkStep::Ask(index, _) ==> index < patterns@.len(),
{
    let ghost facts = facts_of(patterns@);
    let mut i: usize = match answered {
        None => 0,
        Some((index, holds)) => {
            if holds {
                return JunkStep::Junk(patterns[index].ecosystem);
            }
            index + 1
        },
    };
    let ghost from = i as int;
    while i < patterns.len()
        invariant
            facts == facts_of(patterns@),
            from <= i <= patterns@.len(),
            next_named(facts, dir_name@, from) == next_named(facts, dir_name@, i as int),
            answered matches Some((_, holds)) ==> !holds,
            from == (match answered {
                None => 0int,
                Some((index, _)) => index + 1,
            }),
        decreases patterns@.len() - i,
    {
        let pattern = &patterns[i];
        assert(facts[i as int] == pattern@);
        if same_bytes(pattern.dir_name.as_bytes(), dir_name) {
            return match pattern.marker {
                None => JunkStep::Junk(pattern.ecosystem),
                Some(marker) => JunkStep::Ask(i, marker),
            };
        }
        i = i + 1;
    }
    JunkStep::NotJunk
}

/// The pattern applies, given which markers the parent directory holds.
pub open spec fn applies(
    p: PatternFacts,
    name: Seq<u8>,
    holds: spec_fn(Seq<char>) -> bool,
) -> bool {
    is_named(p, name) && (p.marker matches Some(marker) ==> holds(marker))
}

/// What the matching of `name` comes to, step by step, once the patterns below `from` are
/// ruled out and each question is answered by `holds`.
pub open spec fn verdict(
    patterns: Seq<PatternFacts>,
    name: Seq<u8>,
    holds: spec_fn(Seq<char>) -> bool,
    from: int,
) -> Option<Seq<char>>
    decreases patterns.len() - from,
{
    match step_from(patterns, name, from) {
        StepFacts::Junk(ecosystem) => Some(ecosystem),
        StepFacts::NotJunk => None,
        StepFacts::Ask(index, marker) => if from <= index < patterns.len() {
            match step_after(patterns, name, Some((index as usize, holds(marker)))) {
                StepFacts::Junk(ecosystem) if holds(marker) => Some(ecosystem),
                _ => verdict(patterns, name, holds, index + 1),
            }
        } else {
            None
        },
    }
}

pub(crate) proof fn lemma_next_named(patterns: Seq<PatternFacts>, name: Seq<u8>, from: int)
    requires
        0 <= from,
    ensures
        ({
            let i = next_named(patterns, name, from);
            &&& from <= patterns.len() ==> from <= i <= patterns.len()
            &&& from > patterns.len() ==> i == patterns.len()
            &&& from <= i < patterns.len() ==> is_named(patterns[i], name)
            &&& forall|j: int|
                from <= j < i && j < patterns.len() ==> !is_named(#[trigger] patterns[j], name)
        }),
    decreases patterns.len() - from,
{
    if from < patterns.len() && !is_named(patterns[from], name) {
        lemma_next_named(patterns, name, from + 1);
    }
}

proof fn lemma_verdict(
    patterns: Seq<PatternFacts>,
    name: Seq<u8>,
    holds: spec_fn(Seq<char>) -> bool,
    from: int,
)
    requires
        0 <= from <= patterns.len() <= usize::MAX,
    ensures
        match verdict(patterns, name, holds, from) {
            Some(ecosystem) => exists|i: int|
                from <= i < patterns.len() && is_first(patterns, name, holds, from, i)
                    && ecosystem == (#[trigger] patterns[i]).ecosystem,
            None => forall|i: int|
                from <= i < patterns.len() ==> !applies(#[trigger] patterns[i], name, holds),
        },
    decreases patterns.len() - from,
{
    lemma_next_named(patterns, name, from);
    let i = next_named(patterns, name, from);
    if i < patterns.len() {
        match patterns[i].marker {
            None => {
                assert(is_first(patterns, name, holds, from, i));
                assert(verdict(patterns, name, holds, from) == Some(patterns[i].ecosystem));
            },
            Some(marker) => {
                assert(i as usize == i);
                if holds(marker) {
                    assert(is_first(patterns, name, holds, from, i));
                    assert(verdict(patterns, name, holds, from) == Some(patterns[i].ecosystem));
                } else {
                    lemma_verdict(patterns, name, holds, i + 1);
                    let rest = verdict(patterns, name, holds, i + 1);
                    assert(verdict(patterns, name, holds, from) == rest);
                    if let Some(ecosystem) = rest {
                        let k = choose|k: int|
                            i + 1 <= k < patterns.len() && is_first(
                                patterns,
                                name,
                                holds,
                                i + 1,
                                k,
                            ) && ecosystem == (#[trigger] patterns[k]).ecosystem;
                        assert(is_first(patterns, name, holds, from, k));
                    }
                }
            },
        }
    }
}

/// Pattern `i` is the first one from `from` on that applies.
pub open spec fn is_first(
    patterns: Seq<PatternFacts>,
    name: Seq<u8>,
    holds: spec_fn(Seq<char>) -> bool,
    from: int,
    i: int,
) -> bool {
    &&& applies(patterns[i], name, holds)
    &&& forall|j: int| from <= j < i ==> !applies(#[trigger] patterns[j], name, holds)
}

/// A directory is junk of the first pattern that applies to it, and not junk where none does.
pub proof fn first_pattern_decides(
    patterns: Seq<PatternFacts>,
    name: Seq<u8>,
    holds: spec_fn(Seq<char>) -> bool,
)
    requires
        patterns.len() <= usize::MAX,
    ensures
        match verdict(patterns, name, holds, 0) {
            Some(ecosystem) => exists|i: int|
                0 <= i < patterns.len() && is_first(patterns, name, holds, 0, i) && ecosystem == (
                #[trigger] patterns[i]).ecosystem,
            None => forall|i: int|
                0 <= i < patterns.len() ==> !applies(#[trigger] patterns[i], name, holds),
        },
{
    lemma_verdict(patterns, name, holds, 0);
}

/// Whether a directory is junk does not depend on the order of the patterns.
pub proof fn pattern_order_does_not_matter(
    patterns: Seq<PatternFacts>,
    reordered: Seq<PatternFacts>,
    name: Seq<u8>,
    holds: spec_fn(Seq<char>) -> bool,
)
    requires
        patterns.len() <= usize::MAX,
        patterns.to_multiset() == reordered.to_multiset(),
    ensures
        verdict(patterns, name, holds, 0) is Some == verdict(reordered, name, holds, 0) is Some,
{
    broadcast use vstd::seq_lib::group_to_multiset_ensures;

    assert(patterns.len() == patterns.to_multiset().len());
    assert(reordered.len() == reordered.to_multiset().len());
    lemma_verdict(patterns, name, holds, 0);
    lemma_verdict(reordered, name, holds, 0);
    assert forall|p: PatternFacts| #[trigger] patterns.contains(p) == reordered.contains(p) by {
        vstd::seq_lib::to_multiset_contains(patterns, p);
        vstd::seq_lib::to_multiset_contains(reordered, p);
    }
    if verdict(patterns, name, holds, 0) is Some {
        let i = choose|i: int|
            0 <= i < patterns.len() && is_first(patterns, name, holds, 0, i) && verdict(
                patterns,
                name,
                holds,
                0,
            )->0 == (#[trigger] patterns[i]).ecosystem;
        assert(patterns.contains(patterns[i]));
        assert(reordered.contains(patterns[i]));
        let k = choose|k: int| 0 <= k < reordered.len() && reordered[k] == patterns[i];
        assert(applies(reordered[k], name, holds));
    }
    if verdict(reordered, name, holds, 0) is Some {
        let i = choose|i: int|
            0 <= i < reordered.len() && is_first(reordered, name, holds, 0, i) && verdict(
                reordered,
                name,
                holds,
                0,
            )->0 == (#[trigger] reordered[i]).ecosystem;
        assert(reordered.contains(reordered[i]));
        assert(patterns.contains(reordered[i]));
        let k = choose|k: int| 0 <= k < patterns.len() && patterns[k] == reordered[i];
        assert(applies(patterns[k], name, holds));
    }
}

// ── Markers ─────────────────────────────────────────────────────────────

/// How the presence of a marker is found out.
#[derive(Debug)]
pub enum MarkerProbe {
    /// Some entry of the parent directory has this extension.
    Extension(Vec<u8>),
    /// This path exists.
    Path(Vec<u8>),
}

/// A marker that starts with `*.` stands for any name with the extension behind it.
pub open spec fn is_wildcard(marker: Seq<u8>) -> bool {
    marker.len() >= 2 && marker[0] == 0x2a && marker[1] == 0x2e
}

/// What a [`MarkerProbe`] says.
pub enum ProbeFacts {
    Extension(Seq<u8>),
    Path(Seq<u8>),
}

impl View for MarkerProbe {
    type V = ProbeFacts;

    open spec fn view(&self) -> ProbeFacts {
        match self {
            MarkerProbe::Extension(ext) => ProbeFacts::Extension(ext@),
            MarkerProbe::Path(path) => ProbeFacts::Path(path@),
        }
    }
}

/// How the presence of `marker` in `parent` is found out.
pub open spec fn probe_of(parent: Seq<u8>, marker: Seq<u8>) -> ProbeFacts {
    if is_wildcard(marker) {
        ProbeFacts::Extension(marker.skip(2))
    } else {
        ProbeFacts::Path(paths::joined(parent, marker))
    }
}

/// How the presence of `marker` in `parent` is found out.
pub fn marker_probe(parent: &[u8], marker: &str) -> (probe: MarkerProbe)
    ensures
        probe@ == probe_of(parent@, vstd::utf8::encode_utf8(marker@)),
{
    let bytes = marker.as_bytes();
    if bytes.len() >= 2 && bytes[0] == 0x2a && bytes[1] == 0x2e {
        let mut ext: Vec<u8> = Vec::new();
        paths::append_range(&mut ext, bytes, 2, bytes.len());
        assert(ext@ =~= bytes@.skip(2));
        MarkerProbe::Extension(ext)
    } else {
        MarkerProbe::Path(join(parent, bytes))
    }
}

/// Some of the names has the extension `ext`.
pub open spec fn has_extension(names: Seq<Seq<u8>>, ext: Seq<u8>) -> bool {
    exists|i: int| 0 <= i < names.len() && paths::extension_of(#[trigger] names[i]) == Some(ext)
}

/// Whether some of the names has the extension `ext`.
pub fn any_with_extension(names: &[Vec<u8>], ext: &[u8]) -> (found: bool)
    ensures
        found == has_extension(paths_of(names@), ext@),
{
    let mut i: usize = 0;
    while i < names.len()
        invariant
            i <= names@.len(),
            forall|j: int|
                0 <= j < i ==> paths::extension_of((#[trigger] names@[j])@) != Some(ext@),
        decreases names@.len() - i,
    {
        match extension(names[i].as_slice()) {
            Some(e) => {
                if same_bytes(e.as_slice(), ext) {
                    assert(paths::extension_of(paths_of(names@)[i as int]) == Some(ext@));
                    return true;
                }
            },
            None => {},
        }
        i = i + 1;
    }
    assert forall|j: int| 0 <= j < paths_of(names@).len() implies paths::extension_of(
        #[trigger] paths_of(names@)[j],
    ) != Some(ext@) by {
        assert(paths::extension_of(names@[j]@) != Some(ext@));
    }
    false
}

/// A junk directory that a scan has found.
#[derive(Debug)]
pub struct JunkHit {
    pub path: Vec<u8>,
    pub ecosystem: &'static str,
    pub size_bytes: u64,
}

/// What is known of a junk directory.
pub struct HitFacts {
    pub path: Seq<u8>,
    pub ecosystem: Seq<char>,
    pub size_bytes: u64,
}

impl View for JunkHit {
    type V = HitFacts;

    open spec fn view(&self) -> HitFacts {
        HitFacts {
            path: self.path@,
            ecosystem: self.ecosystem@,
            size_bytes: self.size_bytes,
        }
    }
}

// ── Size on disk ────────────────────────────────────────────────────────

/// What a file system says of an entry.
#[derive(Debug, Clone, Copy)]
pub struct FileStat {
    pub is_file: bool,
    pub is_dir: bool,
    /// How many blocks of 512 bytes the entry takes, where the platform tells.
    pub blocks: Option<u64>,
    /// The length of the entry's data.
    pub len: u64,
}

impl FileStat {
    /// The bytes that the entry takes on disk. Blocks count what a sparse file really takes;
    /// without them it is the length.
    pub open spec fn usage(self) -> nat {
        match self.blocks {
            Some(blocks) => (blocks * 512) as nat,
            None => self.len as nat,
        }
    }
}

/// The bytes that an entry takes on disk.
pub fn disk_usage(stat: &FileStat) -> (bytes: u64)
    requires
        stat.usage() <= u64::MAX,
    ensures
        bytes == stat.usage(),
{
    match stat.blocks {
        Some(blocks) => blocks * 512,
        None => stat.len,
    }
}

/// An entry of a directory whose size is being taken.
#[derive(Debug)]
pub struct StatEntry {
    pub name: Vec<u8>,
    /// `None` where the file system could not tell.
    pub stat: Option<FileStat>,
}

/// What an entry adds to the size of its directory.
pub open spec fn entry_usage() -> spec_fn(StatEntry) -> nat {
    |e: StatEntry|
        match e.stat {
            Some(stat) => if stat.is_file {
                stat.usage()
            } else {
                0
            },
            None => 0,
        }
}

/// What the files of a listing take on disk.
pub open spec fn listing_usage(entries: Seq<StatEntry>) -> nat {
    sums::total(entries, entry_usage())
}

pub open spec fn is_subdir(e: StatEntry) -> bool {
    e.stat matches Some(stat) && !stat.is_file && stat.is_dir
}

/// The directories of a listing of `dir`, as paths.
pub open spec fn subdirs(dir: Seq<u8>, entries: Seq<StatEntry>) -> Seq<Seq<u8>>
    decreases entries.len(),
{
    if entries.len() == 0 {
        seq![]
    } else if is_subdir(entries.last()) {
        subdirs(dir, entries.drop_last()).push(paths::joined(dir, entries.last().name@))
    } else {
        subdirs(dir, entries.drop_last())
    }
}

pub open spec fn paths_of(list: Seq<Vec<u8>>) -> Seq<Seq<u8>> {
    list.map_values(|p: Vec<u8>| p@)
}

/// The bytes found and the directories that wait before any was listed.
pub open spec fn before_listing(path: Seq<u8>) -> (nat, Seq<Seq<u8>>) {
    (0, seq![path])
}

/// The bytes found and the directories that wait after `dir` was listed.
pub open spec fn after_listing(
    before: (nat, Seq<Seq<u8>>),
    dir: Seq<u8>,
    entries: Seq<StatEntry>,
) -> (nat, Seq<Seq<u8>>) {
    (before.0 + listing_usage(entries), before.1 + subdirs(dir, entries))
}

/// The size of a directory tree while it is being taken.
#[derive(Debug)]
pub struct SizeWalk {
    total: u64,
    pending: Vec<Vec<u8>>,
}

impl SizeWalk {
    /// The bytes found so far.
    pub closed spec fn found(self) -> nat {
        self.total as nat
    }

    /// The directories that are still to be listed, the next one last.
    pub closed spec fn waiting(self) -> Seq<Seq<u8>> {
        paths_of(self.pending@)
    }

    /// The bytes found so far; the size of the tree once no directory is left.
    pub fn total(&self) -> (total: u64)
        ensures
            total == self.found(),
    {
        self.total
    }

    /// Takes out the next directory to be listed.
    pub fn next_dir(&mut self) -> (dir: Option<Vec<u8>>)
        ensures
            final(self).found() == old(self).found(),
            match dir {
                Some(dir) => old(self).waiting().len() > 0 && dir@ == old(self).waiting().last()
                    && final(self).waiting() == old(self).waiting().drop_last(),
                None => old(self).waiting().len() == 0 && final(self).waiting() == old(
                    self,
                ).waiting(),
            },
    {
        let dir = self.pending.pop();
        assert(dir is Some ==> paths_of(self.pending@) =~= paths_of(
            old(self).pending@,
        ).drop_last());
        dir
    }

    /// Whether the files of a listing can be added to what was found.
    pub fn can_add(&self, entries: &[StatEntry]) -> (can: bool)
        ensures
            can == (self.found() + listing_usage(entries@) <= u64::MAX),
    {
        let mut sum: u64 = self.total;
        let mut i: usize = 0;
        while i < entries.len()
            invariant
                i <= entries@.len(),
                sum == self.total + listing_usage(entries@.take(i as int)),
            decreases entries@.len() - i,
        {
            proof {
                sums::lemma_total_step(entries@, i as int, entry_usage());
            }
            if let Some(stat) = entries[i].stat {
                if stat.is_file {
                    let bytes: Option<u64> = match stat.blocks {
                        Some(blocks) => blocks.checked_mul(512),
                        None => Some(stat.len),
                    };
                    match bytes {
                        Some(bytes) => {
                            match sum.checked_add(bytes) {
                                Some(next) => {
                                    sum = next;
                                },
                                None => {
                                    return false;
                                },
                            }
                        },
                        None => {
                            return false;
                        },
                    }
                }
            }
            i = i + 1;
        }
        assert(entries@.take(i as int) =~= entries@);
        true
    }

    /// Adds the files of a listing of `dir`, and its directories to those still to be listed.
    pub fn dir_size_inner(&mut self, dir: &[u8], entries: &[StatEntry])
        requires
            old(self).found() + listing_usage(entries@) <= u64::MAX,
        ensures
            (final(self).found(), final(self).waiting()) == after_listing(
                (old(self).found(), old(self).waiting()),
                dir@,
                entries@,
            ),
    {
        let ghost waiting = paths_of(self.pending@);
        let mut i: usize = 0;
        assert(waiting + subdirs(dir@, entries@.take(0)) =~= waiting);
        while i < entries.len()
            invariant
                i <= entries@.len(),
                waiting == old(self).waiting(),
                old(self).found() + listing_usage(entries@) <= u64::MAX,
                self.total == old(self).found() + listing_usage(entries@.take(i as int)),
                paths_of(self.pending@) == waiting + subdirs(dir@, entries@.take(i as int)),
            decreases entries@.len() - i,
        {
            let entry = &entries[i];
            proof {
                sums::lemma_total_step(entries@, i as int, entry_usage());
                assert(entries@.take(i + 1).drop_last() =~= entries@.take(i as int));
                assert(entries@.take(i + 1).last() == entry);
            }
            match entry.stat {
                None => {},
                Some(stat) => {
                    if stat.is_file {
                        self.total = self.total + disk_usage(&stat);
                    } else if stat.is_dir {
                        let path = join(dir, entry.name.as_slice());
                        proof {
                            assert(paths_of(self.pending@.push(path)) =~= paths_of(
                                self.pending@,
                            ).push(path@));
                            assert((waiting + subdirs(dir@, entries@.take(i as int))).push(path@)
                                =~= waiting + subdirs(dir@, entries@.take(i + 1)));
                        }
                        self.pending.push(path);
                    }
                },
            }
            i = i + 1;
        }
        assert(entries@.take(i as int) =~= entries@);
    }
}

/// Starts to take the size of the directory tree at `path`.
pub fn dir_size(path: &[u8]) -> (walk: SizeWalk)
    ensures
        (walk.found(), walk.waiting()) == before_listing(path@),
{
    let mut pending: Vec<Vec<u8>> = Vec::new();
    pending.push(paths::copy_bytes(path));
    assert(paths_of(pending@) =~= seq![path@]);
    SizeWalk { total: 0, pending }
}

} // verus!
