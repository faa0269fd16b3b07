//! Laws of paths: what their components are, how they are joined and in which order they stand.

use vstd::prelude::*;

use crate::paths::Component;
use crate::lex;
use crate::paths;

verus! {

// ── Components ──────────────────────────────────────────────────────────

/// A piece of a path that holds no separator.
pub open spec fn is_segment(segment: Seq<u8>) -> bool {
    forall|i: int| 0 <= i < segment.len() ==> #[trigger] segment[i] != 47
}

/// What a segment adds behind a separator: nothing where it is empty or a dot, the parent where it
/// is two dots, and else itself.
pub open spec fn segment_adds(segment: Seq<u8>) -> Seq<Component> {
    if segment.len() == 0 || (segment.len() == 1 && segment[0] == 46) {
        seq![]
    } else if segment.len() == 2 && segment[0] == 46 && segment[1] == 46 {
        seq![Component::ParentDir]
    } else {
        seq![Component::Normal(segment)]
    }
}

proof fn lemma_dots(segment: Seq<u8>)
    ensures
        segment == seq![0x2eu8] <==> segment.len() == 1 && segment[0] == 46,
        segment == seq![0x2eu8, 0x2eu8] <==> segment.len() == 2 && segment[0] == 46 && segment[1]
            == 46,
{
    if segment.len() == 1 && segment[0] == 46 {
        assert(segment =~= seq![0x2eu8]);
    }
    if segment.len() == 2 && segment[0] == 46 && segment[1] == 46 {
        assert(segment =~= seq![0x2eu8, 0x2eu8]);
    }
}

proof fn lemma_last_segment(s: Seq<u8>, i: int)
    requires
        0 <= i <= s.len(),
        forall|k: int| i <= k < s.len() ==> #[trigger] s[k] != 47,
    ensures
        paths::components_from(s, i) == paths::listed(
            paths::classify(s.subrange(i, s.len() as int), i == 0),
        ),
{
    paths::lemma_segment_end(s, i);
    let e = paths::segment_end(s, i);
    assert(e == s.len()) by {
        if e < s.len() {
            assert(s[e] != 47);
        }
    }
    if i == s.len() {
        assert(s.subrange(i, i) =~= seq![]);
        assert(paths::components_from(s, i) =~= paths::listed(None));
    } else {
        assert(paths::components_from(s, e + 1) =~= seq![]);
        assert(paths::components_from(s, i) =~= paths::listed(
            paths::classify(s.subrange(i, s.len() as int), i == 0),
        ));
    }
}

proof fn lemma_appended(dir: Seq<u8>, segment: Seq<u8>, i: int)
    requires
        0 <= i <= dir.len(),
        dir.len() > 0,
        dir.last() == 47,
        is_segment(segment),
    ensures
        paths::components_from(dir + segment, i) == paths::components_from(dir, i) + segment_adds(
            segment,
        ),
    decreases dir.len() - i,
{
    let s = dir + segment;
    if i == dir.len() {
        assert forall|k: int| i <= k < s.len() implies #[trigger] s[k] != 47 by {
            assert(s[k] == segment[k - dir.len()]);
        }
        lemma_last_segment(s, i);
        assert(s.subrange(i, s.len() as int) =~= segment);
        lemma_dots(segment);
        assert(paths::components_from(dir, i) =~= seq![]);
        assert(paths::components_from(s, i) =~= segment_adds(segment));
    } else {
        paths::lemma_segment_end(dir, i);
        let e = paths::segment_end(dir, i);
        assert(e < dir.len());
        paths::lemma_segment_end_prefix(dir, segment, i);
        assert(s.subrange(i, e) =~= dir.subrange(i, e));
        lemma_appended(dir, segment, e + 1);
        let head = paths::listed(paths::classify(dir.subrange(i, e), i == 0));
        assert(paths::components_from(s, i) =~= head + paths::components_from(s, e + 1));
        assert(paths::components_from(dir, i) =~= head + paths::components_from(dir, e + 1));
        assert(paths::components_from(s, i) =~= paths::components_from(dir, i) + segment_adds(
            segment,
        ));
    }
}

/// A path has the components of what stands before its last separator, and then what its last
/// segment adds. Separators that follow each other, and one at the end, add nothing.
pub proof fn paths_are_read_segment_by_segment(dir: Seq<u8>, segment: Seq<u8>)
    requires
        dir.len() > 0,
        is_segment(segment),
    ensures
        dir.last() == 47 ==> paths::components(dir + segment) == paths::components(dir)
            + segment_adds(segment),
        paths::components(dir.push(47)) == paths::components(dir),
{
    if dir.last() == 47 {
        lemma_appended(dir, segment, 0);
        assert((dir + segment)[0] == dir[0]);
        assert(paths::components(dir + segment) =~= paths::components(dir) + segment_adds(
            segment,
        ));
    }
    paths::lemma_trailing_separator(dir, 0);
    assert(dir.push(47)[0] == dir[0]);
}

/// A path without separators is what its one segment says: nothing, the current directory, the
/// parent, or a name. A separator at the start is the root.
pub proof fn paths_start_with_their_first_segment(segment: Seq<u8>)
    requires
        is_segment(segment),
    ensures
        segment.len() == 0 ==> paths::components(segment).len() == 0,
        segment.len() == 1 && segment[0] == 46 ==> paths::components(segment) == seq![
            Component::CurDir,
        ],
        segment.len() > 0 && !(segment.len() == 1 && segment[0] == 46) ==> paths::components(
            segment,
        ) == segment_adds(segment),
        paths::components(seq![47u8]) == seq![Component::RootDir],
{
    lemma_last_segment(segment, 0);
    assert(segment.subrange(0, segment.len() as int) =~= segment);
    lemma_dots(segment);
    assert(segment.len() > 0 ==> segment[0] != 47);
    assert(paths::components(segment) =~= paths::components_from(segment, 0));
    let root = seq![47u8];
    assert(paths::components_from(Seq::<u8>::empty(), 0) =~= seq![]);
    paths::lemma_trailing_separator(Seq::<u8>::empty(), 0);
    assert(Seq::<u8>::empty().push(47) =~= root);
    assert(paths::components(root) =~= seq![Component::RootDir]);
    assert(segment.len() > 0 && !(segment.len() == 1 && segment[0] == 46) ==> paths::components(
        segment,
    ) =~= segment_adds(segment));
    assert(segment.len() == 1 && segment[0] == 46 ==> paths::components(segment) =~= seq![
        Component::CurDir,
    ]);
}

// ── Joining ─────────────────────────────────────────────────────────────

/// A name is put behind a directory with one separator between them, and none where the directory
/// is empty or ends with one. Nothing of either is lost.
pub proof fn joining_puts_one_separator_between(dir: Seq<u8>, name: Seq<u8>)
    requires
        name.len() == 0 || name[0] != 47,
    ensures
        ({
            let all = paths::joined(dir, name);
            let n = if dir.len() > 0 && dir.last() != 47 {
                1int
            } else {
                0
            };
            &&& all.len() == dir.len() + n + name.len()
            &&& all.take(dir.len() as int) == dir
            &&& all.skip(dir.len() + n) == name
            &&& n == 1 ==> all[dir.len() as int] == 47
        }),
{
    let all = paths::joined(dir, name);
    let n = if dir.len() > 0 && dir.last() != 47 {
        1int
    } else {
        0
    };
    assert(all.take(dir.len() as int) =~= dir);
    assert(all.skip(dir.len() + n) =~= name);
}

/// The parent of a path is the path without its last component, and its file name is that
/// component where it is a name. The root and the empty path have neither.
pub proof fn parents_lack_the_last_component(c: Seq<Component>, name: Seq<u8>)
    ensures
        paths::parent_of(c.push(Component::Normal(name))) == Some(c),
        paths::parent_of(c.push(Component::ParentDir)) == Some(c),
        paths::parent_of(c.push(Component::CurDir)) == Some(c),
        paths::parent_of(seq![Component::RootDir]) is None,
        paths::parent_of(seq![]) is None,
        paths::file_name_of(c.push(Component::Normal(name))) == Some(name),
        paths::file_name_of(c.push(Component::ParentDir)) is None,
        paths::file_name_of(c.push(Component::CurDir)) is None,
        paths::file_name_of(seq![Component::RootDir]) is None,
        paths::file_name_of(seq![]) is None,
{
    assert(c.push(Component::Normal(name)).drop_last() =~= c);
    assert(c.push(Component::ParentDir).drop_last() =~= c);
    assert(c.push(Component::CurDir).drop_last() =~= c);
}

/// A directory leads to all that has its components and more behind them, and to nothing else;
/// only the empty path does not lead to the root.
pub proof fn directories_lead_to_what_lies_below(dir: Seq<Component>, more: Seq<Component>)
    ensures
        more.len() > 0 && !(dir.len() == 0 && more[0] == Component::RootDir) ==> paths::is_ancestor(
            dir,
            dir + more,
        ),
        !paths::is_ancestor(dir, dir),
        paths::is_ancestor(dir, more) ==> more.take(dir.len() as int) == dir && more.len()
            > dir.len(),
{
    assert((dir + more).subrange(0, dir.len() as int) =~= dir);
    if paths::is_ancestor(dir, more) {
        assert(more.take(dir.len() as int) =~= more.subrange(0, dir.len() as int));
    }
}

/// A name that a directory can list is not empty, holds no separator, and is neither one dot nor
/// two.
pub proof fn file_names_are_single_segments(name: Seq<u8>)
    ensures
        paths::is_file_name(name) <==> is_segment(name) && segment_adds(name) == seq![
            Component::Normal(name),
        ],
{
    lemma_dots(name);
    let adds = segment_adds(name);
    if adds == seq![Component::Normal(name)] {
        assert(adds.len() == 1);
        assert(adds[0] == Component::Normal(name));
    }
}

// ── Order ───────────────────────────────────────────────────────────────

/// `x` stands before `y` byte by byte: they are the same below `k`, and there `x` ends or has the
/// smaller byte.
pub open spec fn is_smaller(x: Seq<u8>, y: Seq<u8>, k: int) -> bool {
    &&& 0 <= k <= x.len()
    &&& k < y.len()
    &&& forall|j: int| 0 <= j < k ==> x[j] == #[trigger] y[j]
    &&& k == x.len() || x[k] < y[k]
}

/// What lies in one directory stands in the order of the bytes of the names, together with all
/// that lies below it.
pub proof fn names_stand_in_the_order_of_their_bytes(
    dir: Seq<Component>,
    x: Seq<u8>,
    y: Seq<u8>,
    k: int,
    a: Seq<Component>,
    b: Seq<Component>,
)
    requires
        is_smaller(x, y, k),
    ensures
        paths::path_before(
            dir.push(Component::Normal(x)) + a,
            dir.push(Component::Normal(y)) + b,
        ),
{
    assert(lex::lex_at(x, y, paths::byte_lt(), k));
    let p = dir.push(Component::Normal(x)) + a;
    let q = dir.push(Component::Normal(y)) + b;
    let n = dir.len() as int;
    assert(p[n] == Component::Normal(x) && q[n] == Component::Normal(y));
    assert(paths::component_before(p[n], q[n]));
    assert(lex::lex_at(p, q, paths::component_lt(), n));
}

/// The root stands before the current directory, that before the parent, and that before names.
pub proof fn names_stand_last(dir: Seq<Component>, name: Seq<u8>)
    ensures
        paths::path_before(dir.push(Component::ParentDir), dir.push(Component::Normal(name))),
        paths::path_before(dir.push(Component::CurDir), dir.push(Component::ParentDir)),
        paths::path_before(dir.push(Component::RootDir), dir.push(Component::CurDir)),
{
    let n = dir.len() as int;
    let lt = paths::component_lt();
    assert(lex::lex_at(dir.push(Component::ParentDir), dir.push(Component::Normal(name)), lt, n));
    assert(lex::lex_at(dir.push(Component::CurDir), dir.push(Component::ParentDir), lt, n));
    assert(lex::lex_at(dir.push(Component::RootDir), dir.push(Component::CurDir), lt, n));
}

} // verus!
