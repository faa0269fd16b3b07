//! Unix paths as byte strings.
//!
//! A path means the sequence of its components: repeated separators, a trailing separator
//! and every `.` but a leading one do not count. Two paths are the same when their
//! components are, and they are ordered component by component. A system that separates names
//! otherwise has its paths converted before they come here and when they are shown or used.

use vstd::prelude::*;

use crate::lex;

verus! {

/// One component of a path.
pub enum Component {
    RootDir,
    CurDir,
    ParentDir,
    Normal(Seq<u8>),
}

/// The index of the first separator at or after `i`, or the end of the path.
pub open spec fn segment_end(s: Seq<u8>, i: int) -> int
    decreases s.len() - i,
{
    if i < 0 || i >= s.len() {
        s.len() as int
    } else if s[i] == 0x2f {
        i
    } else {
        segment_end(s, i + 1)
    }
}

pub proof fn lemma_segment_end(s: Seq<u8>, i: int)
    requires
        0 <= i <= s.len(),
    ensures
        i <= segment_end(s, i) <= s.len(),
        segment_end(s, i) < s.len() ==> s[segment_end(s, i)] == 0x2f,
        forall|j: int| i <= j < segment_end(s, i) ==> #[trigger] s[j] != 0x2f,
    decreases s.len() - i,
{
    if i < s.len() && s[i] != 0x2f {
        lemma_segment_end(s, i + 1);
    }
}

/// What a segment between separators stands for; `leading` tells that nothing is before it.
pub open spec fn classify(segment: Seq<u8>, leading: bool) -> Option<Component> {
    if segment.len() == 0 {
        None
    } else if segment == seq![0x2eu8] {
        if leading {
            Some(Component::CurDir)
        } else {
            None
        }
    } else if segment == seq![0x2eu8, 0x2eu8] {
        Some(Component::ParentDir)
    } else {
        Some(Component::Normal(segment))
    }
}

/// An optional component as a sequence of none or one.
pub open spec fn listed(c: Option<Component>) -> Seq<Component> {
    match c {
        Some(c) => seq![c],
        None => seq![],
    }
}

/// The components of the segments that start at `i`.
pub open spec fn components_from(s: Seq<u8>, i: int) -> Seq<Component>
    decreases s.len() + 1 - i,
{
    if i < 0 || i >= s.len() {
        seq![]
    } else {
        let end = segment_end(s, i);
        proof {
            lemma_segment_end(s, i);
        }
        listed(classify(s.subrange(i, end), i == 0)) + components_from(s, end + 1)
    }
}

pub open spec fn is_absolute(s: Seq<u8>) -> bool {
    s.len() > 0 && s[0] == 0x2f
}

/// The components of a path.
pub open spec fn components(s: Seq<u8>) -> Seq<Component> {
    listed(if is_absolute(s) { Some(Component::RootDir) } else { None }) + components_from(s, 0)
}

pub open spec fn component_rank(c: Component) -> int {
    match c {
        Component::RootDir => 0,
        Component::CurDir => 1,
        Component::ParentDir => 2,
        Component::Normal(_) => 3,
    }
}

pub open spec fn byte_lt() -> spec_fn(u8, u8) -> bool {
    |x: u8, y: u8| x < y
}

/// Byte strings in dictionary order.
pub open spec fn bytes_before(a: Seq<u8>, b: Seq<u8>) -> bool {
    lex::lex_before(a, b, byte_lt())
}

pub open spec fn component_before(x: Component, y: Component) -> bool {
    ||| component_rank(x) < component_rank(y)
    ||| (x matches Component::Normal(a) && y matches Component::Normal(b) && bytes_before(a, b))
}

pub open spec fn component_lt() -> spec_fn(Component, Component) -> bool {
    |x: Component, y: Component| component_before(x, y)
}

/// The order of paths, on their components.
pub open spec fn path_before(a: Seq<Component>, b: Seq<Component>) -> bool {
    lex::lex_before(a, b, component_lt())
}

/// `a` is one of the directories that lead to `b`. An absolute path does not lead through
/// the empty one.
pub open spec fn is_ancestor(a: Seq<Component>, b: Seq<Component>) -> bool {
    &&& a.len() < b.len()
    &&& a.is_prefix_of(b)
    &&& (a.len() == 0 ==> b[0] != Component::RootDir)
}

/// The directory that holds `b`, if there is one.
pub open spec fn parent_of(b: Seq<Component>) -> Option<Seq<Component>> {
    if b.len() == 0 || b.last() == Component::RootDir {
        None
    } else {
        Some(b.drop_last())
    }
}

/// A name that a directory can list: one segment that is neither `.` nor `..`.
pub open spec fn is_file_name(name: Seq<u8>) -> bool {
    &&& name.len() > 0
    &&& name != seq![0x2eu8]
    &&& name != seq![0x2eu8, 0x2eu8]
    &&& forall|i: int| 0 <= i < name.len() ==> #[trigger] name[i] != 0x2f
}

/// `name` inside `dir`; an absolute `name` stands for itself.
pub open spec fn joined(dir: Seq<u8>, name: Seq<u8>) -> Seq<u8> {
    if is_absolute(name) {
        name
    } else if dir.len() > 0 && dir.last() != 0x2f {
        dir.push(0x2f) + name
    } else {
        dir + name
    }
}

/// The last component of a path, if it is a name.
pub open spec fn file_name_of(c: Seq<Component>) -> Option<Seq<u8>> {
    if c.len() > 0 {
        match c.last() {
            Component::Normal(name) => Some(name),
            _ => None,
        }
    } else {
        None
    }
}

/// The index of the last dot of a name, or -1.
pub open spec fn last_dot(name: Seq<u8>) -> int
    decreases name.len(),
{
    if name.len() == 0 {
        -1
    } else if name.last() == 0x2e {
        name.len() - 1
    } else {
        last_dot(name.drop_last())
    }
}

/// What follows the last dot of a file name, unless the name starts with that dot.
pub open spec fn extension_of(name: Seq<u8>) -> Option<Seq<u8>> {
    if name == seq![0x2eu8, 0x2eu8] || last_dot(name) <= 0 {
        None
    } else {
        Some(name.skip(last_dot(name) + 1))
    }
}

// ── The order is strict and total ───────────────────────────────────────

pub proof fn lemma_bytes_strict_total()
    ensures
        lex::strict_total(byte_lt()),
        lex::strict_total(|a: Seq<u8>, b: Seq<u8>| lex::lex_before(a, b, byte_lt())),
{
    let lt = byte_lt();
    assert(forall|x: u8, y: u8| lt(x, y) || x == y || #[trigger] lt(y, x));
    lex::lemma_lex_strict_total(byte_lt());
}

pub proof fn lemma_components_strict_total()
    ensures
        lex::strict_total(component_lt()),
{
    lemma_bytes_strict_total();
    let bytes = |a: Seq<u8>, b: Seq<u8>| lex::lex_before(a, b, byte_lt());
    let lt = component_lt();
    assert forall|x: Component| !(#[trigger] lt(x, x)) by {
        if let Component::Normal(a) = x {
            assert(!bytes(a, a));
        }
    }
    assert forall|x: Component, y: Component, z: Component|
        #[trigger] lt(x, y) && #[trigger] lt(y, z) implies lt(x, z) by {
        if let (Component::Normal(a), Component::Normal(b), Component::Normal(c)) = (x, y, z) {
            assert(bytes(a, b) && bytes(b, c));
        }
    }
    assert forall|x: Component, y: Component| lt(x, y) || x == y || #[trigger] lt(y, x) by {
        if let (Component::Normal(a), Component::Normal(b)) = (x, y) {
            assert(bytes(a, b) || a == b || bytes(b, a));
        }
    }
}

/// Any two paths are the same or one of them comes first, and never both.
pub proof fn path_order_is_total(a: Seq<Component>, b: Seq<Component>)
    ensures
        path_before(a, b) || a == b || path_before(b, a),
        path_before(a, b) ==> a != b && !path_before(b, a),
{
    lemma_components_strict_total();
    lex::lemma_lex_total(a, b, component_lt());
    if path_before(a, b) && path_before(b, a) {
        lex::lemma_lex_transitive(a, b, a, component_lt());
    }
    lex::lemma_lex_irreflexive(a, component_lt());
}

/// The order of paths is transitive.
pub proof fn path_order_is_transitive(a: Seq<Component>, b: Seq<Component>, c: Seq<Component>)
    requires
        path_before(a, b),
        path_before(b, c),
    ensures
        path_before(a, c),
{
    lemma_components_strict_total();
    lex::lemma_lex_transitive(a, b, c, component_lt());
}

/// A directory comes before everything that it leads to.
pub proof fn ancestor_comes_first(a: Seq<Component>, b: Seq<Component>)
    requires
        is_ancestor(a, b),
    ensures
        path_before(a, b),
{
    assert forall|j: int| 0 <= j < a.len() implies a[j] == #[trigger] b[j] by {
        assert(b.subrange(0, a.len() as int)[j] == b[j]);
    }
    assert(lex::lex_at(a, b, component_lt(), a.len() as int));
}

/// Sorted paths keep a directory together with all that lies under it.
pub proof fn subtree_is_contiguous(dir: Seq<Component>, x: Seq<Component>, c: Seq<Component>)
    requires
        dir.is_prefix_of(c),
        dir == x || path_before(dir, x),
        x == c || path_before(x, c),
    ensures
        dir.is_prefix_of(x),
{
    lemma_components_strict_total();
    lex::lemma_between_extends(dir, x, c, component_lt());
}

// ── Joining ─────────────────────────────────────────────────────────────

/// `s` with `tail` behind it has the segments of `s` up to a separator.
proof fn lemma_segment_end_append(s: Seq<u8>, tail: Seq<u8>, i: int)
    requires
        0 <= i <= s.len(),
        tail.len() > 0,
        tail[0] == 0x2f,
    ensures
        segment_end(s + tail, i) == segment_end(s, i),
    decreases s.len() - i,
{
    if i < s.len() {
        assert((s + tail)[i] == s[i]);
        if s[i] != 0x2f {
            lemma_segment_end_append(s, tail, i + 1);
        }
    } else {
        assert((s + tail)[i] == tail[0]);
    }
}

/// The segments of a path whose last byte is a separator do not see what is appended.
proof fn lemma_components_split(dir: Seq<u8>, name: Seq<u8>, i: int)
    requires
        0 <= i <= dir.len(),
        dir.len() > 0,
        dir.last() == 0x2f,
        is_file_name(name),
    ensures
        components_from(dir + name, i) == components_from(dir, i).push(Component::Normal(name)),
    decreases dir.len() - i,
{
    let s = dir + name;
    if i == dir.len() {
        lemma_segment_end(s, i);
        let e = segment_end(s, i);
        assert(e == s.len()) by {
            if e < s.len() {
                assert(s[e] == name[e - dir.len()]);
            }
        }
        assert(s.subrange(i, e) =~= name);
        assert(components_from(s, e + 1) =~= seq![]);
        assert(components_from(dir, i) =~= seq![]);
        assert(classify(name, false) == Some(Component::Normal(name)));
        assert(components_from(s, i) =~= seq![Component::Normal(name)]);
    } else {
        lemma_segment_end(dir, i);
        let e = segment_end(dir, i);
        assert(e < dir.len());
        lemma_segment_end_prefix(dir, name, i);
        assert(s.subrange(i, e) =~= dir.subrange(i, e));
        lemma_components_split(dir, name, e + 1);
        let head = listed(classify(dir.subrange(i, e), i == 0));
        assert(components_from(s, i) =~= head + components_from(s, e + 1));
        assert(components_from(dir, i) =~= head + components_from(dir, e + 1));
    }
}

/// A separator inside `dir` ends the same segment in `dir + name`.
pub(crate) proof fn lemma_segment_end_prefix(dir: Seq<u8>, name: Seq<u8>, i: int)
    requires
        0 <= i <= dir.len(),
        segment_end(dir, i) < dir.len(),
    ensures
        segment_end(dir + name, i) == segment_end(dir, i),
    decreases dir.len() - i,
{
    if i < dir.len() {
        assert((dir + name)[i] == dir[i]);
        if dir[i] != 0x2f {
            lemma_segment_end_prefix(dir, name, i + 1);
        }
    }
}

/// A separator at the end of a path changes none of its components.
pub(crate) proof fn lemma_trailing_separator(dir: Seq<u8>, i: int)
    requires
        0 <= i <= dir.len() + 1,
    ensures
        components_from(dir.push(0x2f), i) == components_from(dir, i),
    decreases dir.len() + 1 - i,
{
    let s = dir.push(0x2f);
    let tail = seq![0x2fu8];
    assert(s =~= dir + tail);
    if i == dir.len() + 1 {
    } else if i == dir.len() {
        assert(s[i] == 0x2f);
        assert(segment_end(s, i) == i);
        assert(s.subrange(i, i) =~= seq![]);
        assert(components_from(s, i + 1) =~= seq![]);
        assert(components_from(s, i) =~= seq![]);
    } else {
        lemma_segment_end(dir, i);
        lemma_segment_end_append(dir, tail, i);
        let e = segment_end(dir, i);
        assert(s.subrange(i, e) =~= dir.subrange(i, e));
        lemma_trailing_separator(dir, e + 1);
    }
}

/// What a directory lists lies one component below it.
pub proof fn joining_adds_one_component(dir: Seq<u8>, name: Seq<u8>)
    requires
        is_file_name(name),
    ensures
        components(joined(dir, name)) == components(dir).push(Component::Normal(name)),
{
    assert(name[0] != 0x2f);
    if dir.len() == 0 {
        assert(dir + name =~= name);
        lemma_segment_end(name, 0);
        let e = segment_end(name, 0);
        assert(e == name.len()) by {
            if e < name.len() {
                assert(name[e] != 0x2f);
            }
        }
        assert(name.subrange(0, e) =~= name);
        assert(components_from(name, e + 1) =~= seq![]);
        assert(components_from(name, 0) =~= seq![Component::Normal(name)]);
        assert(components(dir) =~= seq![]);
    } else {
        let base = if dir.last() != 0x2f {
            dir.push(0x2f)
        } else {
            dir
        };
        lemma_trailing_separator(dir, 0);
        lemma_components_split(base, name, 0);
        assert((base + name)[0] == dir[0]);
        assert(joined(dir, name) == base + name);
        assert(components(base + name) =~= components(dir).push(Component::Normal(name)));
    }
}

/// The parent of what a directory lists is that directory.
pub proof fn joining_gives_a_child(dir: Seq<u8>, name: Seq<u8>)
    requires
        is_file_name(name),
    ensures
        parent_of(components(joined(dir, name))) == Some(components(dir)),
        file_name_of(components(joined(dir, name))) == Some(name),
{
    joining_adds_one_component(dir, name);
    assert(components(dir).push(Component::Normal(name)).drop_last() =~= components(dir));
}

// ── Reading a path ──────────────────────────────────────────────────────

/// A component other than the root, as a piece of the path that holds it.
struct Part {
    kind: PartKind,
    start: usize,
    end: usize,
    next: usize,
}

enum PartKind {
    CurDir,
    ParentDir,
    Normal,
}

impl Part {
    spec fn component(self, s: Seq<u8>) -> Component {
        match self.kind {
            PartKind::CurDir => Component::CurDir,
            PartKind::ParentDir => Component::ParentDir,
            PartKind::Normal => Component::Normal(s.subrange(self.start as int, self.end as int)),
        }
    }

    /// The part is what `s` goes on with at `pos`.
    spec fn leads(self, s: Seq<u8>, pos: int) -> bool {
        &&& pos <= self.start < self.end <= self.next <= s.len()
        &&& components_from(s, pos) == seq![self.component(s)] + components_from(
            s,
            self.next as int,
        )
    }
}

/// The index of the first separator at or after `from`, or the end of the path.
fn find_separator(path: &[u8], from: usize) -> (end: usize)
    requires
        from <= path@.len(),
    ensures
        end == segment_end(path@, from as int),
{
    let mut i: usize = from;
    while i < path.len() && path[i] != 0x2f
        invariant
            from <= i <= path@.len(),
            segment_end(path@, from as int) == segment_end(path@, i as int),
        decreases path@.len() - i,
    {
        i = i + 1;
    }
    i
}

/// The first component at or after `from`, which is the start of a segment.
fn next_part(path: &[u8], from: usize) -> (part: Option<Part>)
    requires
        from <= path@.len(),
    ensures
        match part {
            Some(part) => part.leads(path@, from as int),
            None => components_from(path@, from as int) == Seq::<Component>::empty(),
        },
{
    let mut pos: usize = from;
    while pos < path.len()
        invariant
            from <= pos <= path@.len(),
            components_from(path@, from as int) == components_from(path@, pos as int),
        decreases path@.len() - pos,
    {
        let end: usize = find_separator(path, pos);
        proof {
            lemma_segment_end(path@, pos as int);
        }
        let next: usize = if end < path.len() {
            end + 1
        } else {
            end
        };
        let ghost segment = path@.subrange(pos as int, end as int);
        assert(components_from(path@, end + 1) == components_from(path@, next as int));
        let kind: Option<PartKind> = if end == pos {
            None
        } else if end - pos == 1 && path[pos] == 0x2e {
            assert(segment =~= seq![0x2eu8]);
            if pos == 0 {
                Some(PartKind::CurDir)
            } else {
                None
            }
        } else if end - pos == 2 && path[pos] == 0x2e && path[pos + 1] == 0x2e {
            assert(segment =~= seq![0x2eu8, 0x2eu8]);
            assert(segment.len() != seq![0x2eu8].len());
            Some(PartKind::ParentDir)
        } else {
            assert(segment != seq![0x2eu8]) by {
                if segment == seq![0x2eu8] {
                    assert(segment[0] == 0x2e);
                }
            }
            assert(segment != seq![0x2eu8, 0x2eu8]) by {
                if segment == seq![0x2eu8, 0x2eu8] {
                    assert(segment[0] == 0x2e && segment[1] == 0x2e);
                }
            }
            Some(PartKind::Normal)
        };
        match kind {
            Some(kind) => {
                let part = Part { kind, start: pos, end, next };
                assert(part.leads(path@, from as int));
                return Some(part);
            },
            None => {
                assert(components_from(path@, pos as int) =~= components_from(
                    path@,
                    next as int,
                ));
                pos = next;
            },
        }
    }
    None
}

/// Whether two byte strings are the same.
pub fn same_bytes(a: &[u8], b: &[u8]) -> (same: bool)
    ensures
        same == (a@ == b@),
{
    if a.len() != b.len() {
        return false;
    }
    let mut i: usize = 0;
    while i < a.len()
        invariant
            i <= a@.len(),
            a@.len() == b@.len(),
            forall|j: int| 0 <= j < i ==> a@[j] == b@[j],
        decreases a@.len() - i,
    {
        if a[i] != b[i] {
            return false;
        }
        i = i + 1;
    }
    assert(a@ =~= b@);
    true
}

/// How one value stands to another.
#[derive(Debug, Clone, Copy, PartialEq, Eq, Structural)]
pub enum Place {
    Before,
    Same,
    After,
}

/// The bytes `a[a_start..a_end]` against `b[b_start..b_end]`, in dictionary order.
fn place_bytes(
    a: &[u8],
    a_start: usize,
    a_end: usize,
    b: &[u8],
    b_start: usize,
    b_end: usize,
) -> (place: Place)
    requires
        a_start <= a_end <= a@.len(),
        b_start <= b_end <= b@.len(),
    ensures
        ({
            let x = a@.subrange(a_start as int, a_end as int);
            let y = b@.subrange(b_start as int, b_end as int);
            match place {
                Place::Before => bytes_before(x, y),
                Place::Same => x == y,
                Place::After => bytes_before(y, x),
            }
        }),
{
    let ghost x = a@.subrange(a_start as int, a_end as int);
    let ghost y = b@.subrange(b_start as int, b_end as int);
    let mut k: usize = 0;
    while k < a_end - a_start && k < b_end - b_start
        invariant
            a_start <= a_end <= a@.len(),
            b_start <= b_end <= b@.len(),
            x == a@.subrange(a_start as int, a_end as int),
            y == b@.subrange(b_start as int, b_end as int),
            k <= x.len(),
            k <= y.len(),
            forall|j: int| 0 <= j < k ==> x[j] == #[trigger] y[j],
        decreases x.len() - k,
    {
        let p: u8 = a[a_start + k];
        let q: u8 = b[b_start + k];
        assert(p == x[k as int] && q == y[k as int]);
        if p < q {
            assert(lex::lex_at(x, y, byte_lt(), k as int));
            return Place::Before;
        }
        if q < p {
            assert forall|j: int| 0 <= j < k implies y[j] == #[trigger] x[j] by {
                assert(x[j] == y[j]);
            }
            assert(lex::lex_at(y, x, byte_lt(), k as int));
            return Place::After;
        }
        k = k + 1;
    }
    if k < b_end - b_start {
        assert(lex::lex_at(x, y, byte_lt(), k as int));
        Place::Before
    } else if k < a_end - a_start {
        assert forall|j: int| 0 <= j < k implies y[j] == #[trigger] x[j] by {
            assert(x[j] == y[j]);
        }
        assert(lex::lex_at(y, x, byte_lt(), k as int));
        Place::After
    } else {
        assert(x =~= y);
        Place::Same
    }
}

fn part_rank(part: &Part) -> (rank: u8)
    ensures
        forall|s: Seq<u8>| rank == component_rank(#[trigger] part.component(s)),
{
    match part.kind {
        PartKind::CurDir => 1,
        PartKind::ParentDir => 2,
        PartKind::Normal => 3,
    }
}

/// One component against another.
fn place_parts(a: &[u8], p: &Part, b: &[u8], q: &Part) -> (place: Place)
    requires
        p.start <= p.end <= a@.len(),
        q.start <= q.end <= b@.len(),
    ensures
        match place {
            Place::Before => component_before(p.component(a@), q.component(b@)),
            Place::Same => p.component(a@) == q.component(b@),
            Place::After => component_before(q.component(b@), p.component(a@)),
        },
{
    let x: u8 = part_rank(p);
    let y: u8 = part_rank(q);
    assert(x == component_rank(p.component(a@)) && y == component_rank(q.component(b@)));
    if x < y {
        return Place::Before;
    }
    if y < x {
        return Place::After;
    }
    match p.kind {
        PartKind::Normal => place_bytes(a, p.start, p.end, b, q.start, q.end),
        _ => Place::Same,
    }
}

/// `whole` is `done` followed by the components that `s` has from `pos` on.
spec fn stands_at(whole: Seq<Component>, done: int, s: Seq<u8>, pos: int) -> bool {
    &&& 0 <= done <= whole.len()
    &&& whole.skip(done) == components_from(s, pos)
}

proof fn lemma_step(whole: Seq<Component>, done: int, s: Seq<u8>, pos: int, part: Part)
    requires
        stands_at(whole, done, s, pos),
        part.leads(s, pos),
    ensures
        done < whole.len(),
        whole[done] == part.component(s),
        stands_at(whole, done + 1, s, part.next as int),
{
    let rest = components_from(s, part.next as int);
    let here = seq![part.component(s)] + rest;
    assert(whole.skip(done).len() == here.len());
    assert(whole.skip(done)[0] == here[0]);
    assert forall|i: int| 0 <= i < rest.len() implies #[trigger] whole.skip(done + 1)[i]
        == rest[i] by {
        assert(whole.skip(done)[i + 1] == here[i + 1]);
    }
    assert(whole.skip(done + 1) =~= rest);
}

fn is_root(path: &[u8]) -> (root: bool)
    ensures
        root == is_absolute(path@),
{
    path.len() > 0 && path[0] == 0x2f
}

proof fn lemma_start(s: Seq<u8>)
    ensures
        stands_at(components(s), if is_absolute(s) { 1int } else { 0int }, s, 0),
        is_absolute(s) ==> components(s)[0] == Component::RootDir,
{
    let n = if is_absolute(s) {
        1int
    } else {
        0int
    };
    assert(components(s).skip(n) =~= components_from(s, 0));
}

/// `components_from` never yields the root.
proof fn lemma_no_inner_root(s: Seq<u8>, i: int)
    ensures
        forall|j: int|
            0 <= j < components_from(s, i).len() ==> #[trigger] components_from(s, i)[j]
                != Component::RootDir,
    decreases s.len() + 1 - i,
{
    if 0 <= i < s.len() {
        lemma_segment_end(s, i);
        let e = segment_end(s, i);
        lemma_no_inner_root(s, e + 1);
    }
}

/// The parent of a path is the directory that leads to it with one component less.
pub proof fn parent_is_one_component_above(path: Seq<u8>, dir: Seq<Component>)
    ensures
        parent_of(components(path)) == Some(dir) <==> is_ancestor(dir, components(path)) && dir.len()
            + 1 == components(path).len(),
{
    let c = components(path);
    lemma_start(path);
    lemma_no_inner_root(path, 0);
    if c.len() > 1 {
        assert(c.last() != Component::RootDir) by {
            if is_absolute(path) {
                assert(c.last() == components_from(path, 0)[c.len() - 2]);
            } else {
                assert(c.last() == components_from(path, 0)[c.len() - 1]);
            }
        }
    }
    if parent_of(c) == Some(dir) {
        assert(dir =~= c.subrange(0, dir.len() as int));
    }
    if is_ancestor(dir, c) && dir.len() + 1 == c.len() {
        assert(dir =~= c.drop_last());
    }
}

/// `place` tells where `a` stands against `b`.
pub open spec fn placed(place: Place, a: Seq<Component>, b: Seq<Component>) -> bool {
    match place {
        Place::Before => path_before(a, b),
        Place::Same => a == b,
        Place::After => path_before(b, a),
    }
}

/// Which of two paths comes first in the order of paths.
pub fn place_paths(a: &[u8], b: &[u8]) -> (place: Place)
    ensures
        placed(place, components(a@), components(b@)),
{
    let ghost x = components(a@);
    let ghost y = components(b@);
    let ghost mut k: int = 0;
    let mut i: usize = 0;
    let mut j: usize = 0;
    let a_root: bool = is_root(a);
    let b_root: bool = is_root(b);
    proof {
        lemma_start(a@);
        lemma_start(b@);
        lemma_no_inner_root(a@, 0);
        lemma_no_inner_root(b@, 0);
    }
    if a_root && !b_root {
        let first = next_part(b, 0);
        if first.is_none() {
            assert(lex::lex_at(y, x, component_lt(), 0));
            return Place::After;
        }
        assert(y[0] == components_from(b@, 0)[0]);
        assert(lex::lex_at(x, y, component_lt(), 0));
        return Place::Before;
    }
    if b_root && !a_root {
        let first = next_part(a, 0);
        if first.is_none() {
            assert(lex::lex_at(x, y, component_lt(), 0));
            return Place::Before;
        }
        assert(x[0] == components_from(a@, 0)[0]);
        assert(lex::lex_at(y, x, component_lt(), 0));
        return Place::After;
    }
    proof {
        if a_root {
            k = 1;
        }
    }
    loop
        invariant
            i <= a@.len(),
            j <= b@.len(),
            x == components(a@),
            y == components(b@),
            stands_at(x, k, a@, i as int),
            stands_at(y, k, b@, j as int),
            forall|m: int| 0 <= m < k ==> x[m] == #[trigger] y[m],
        decreases a@.len() - i,
    {
        let p = next_part(a, i);
        let q = next_part(b, j);
        match (p, q) {
            (Some(p), Some(q)) => {
                proof {
                    lemma_step(x, k, a@, i as int, p);
                    lemma_step(y, k, b@, j as int, q);
                }
                match place_parts(a, &p, b, &q) {
                    Place::Before => {
                        assert(lex::lex_at(x, y, component_lt(), k));
                        return Place::Before;
                    },
                    Place::After => {
                        assert forall|m: int| 0 <= m < k implies y[m] == #[trigger] x[m] by {
                            assert(x[m] == y[m]);
                        }
                        assert(lex::lex_at(y, x, component_lt(), k));
                        return Place::After;
                    },
                    Place::Same => {
                        i = p.next;
                        j = q.next;
                        proof {
                            k = k + 1;
                        }
                    },
                }
            },
            (None, Some(q)) => {
                proof {
                    lemma_step(y, k, b@, j as int, q);
                }
                assert(x.skip(k).len() == 0);
                assert(lex::lex_at(x, y, component_lt(), k));
                return Place::Before;
            },
            (Some(p), None) => {
                proof {
                    lemma_step(x, k, a@, i as int, p);
                }
                assert(y.skip(k).len() == 0);
                assert forall|m: int| 0 <= m < k implies y[m] == #[trigger] x[m] by {
                    assert(x[m] == y[m]);
                }
                assert(lex::lex_at(y, x, component_lt(), k));
                return Place::After;
            },
            (None, None) => {
                assert(x.skip(k).len() == 0 && y.skip(k).len() == 0);
                assert(x =~= y);
                return Place::Same;
            },
        }
    }
}

/// How a directory path stands to another path.
#[derive(Debug, Clone, Copy, PartialEq, Eq, Structural)]
pub enum Lead {
    /// The two are the same.
    Same,
    /// The first is a proper prefix of the second.
    Above,
    /// The first does not lead to the second.
    Apart,
}

/// Whether the components of `a` are a prefix of those of `b`.
pub fn lead(a: &[u8], b: &[u8]) -> (lead: Lead)
    ensures
        (lead is Same) == (components(a@) == components(b@)),
        (lead is Above) == (components(a@).is_prefix_of(components(b@)) && components(a@)
            != components(b@)),
{
    let ghost x = components(a@);
    let ghost y = components(b@);
    let ghost mut k: int = 0;
    let mut i: usize = 0;
    let mut j: usize = 0;
    let a_root: bool = is_root(a);
    let b_root: bool = is_root(b);
    proof {
        lemma_start(a@);
        lemma_start(b@);
        lemma_no_inner_root(a@, 0);
        lemma_no_inner_root(b@, 0);
    }
    if a_root && !b_root {
        assert(!x.is_prefix_of(y)) by {
            if x.is_prefix_of(y) {
                assert(y.subrange(0, x.len() as int)[0] == y[0]);
                assert(y[0] == components_from(b@, 0)[0]);
            }
        }
        return Lead::Apart;
    }
    if b_root && !a_root {
        let first = next_part(a, 0);
        if first.is_none() {
            assert(x =~= seq![]);
            assert(x.is_prefix_of(y));
            return Lead::Above;
        }
        assert(x[0] == components_from(a@, 0)[0]);
        assert(!x.is_prefix_of(y)) by {
            if x.is_prefix_of(y) {
                assert(y.subrange(0, x.len() as int)[0] == y[0]);
            }
        }
        return Lead::Apart;
    }
    proof {
        if a_root {
            k = 1;
        }
    }
    loop
        invariant
            i <= a@.len(),
            j <= b@.len(),
            x == components(a@),
            y == components(b@),
            stands_at(x, k, a@, i as int),
            stands_at(y, k, b@, j as int),
            forall|m: int| 0 <= m < k ==> x[m] == #[trigger] y[m],
        decreases a@.len() - i,
    {
        let p = next_part(a, i);
        let q = next_part(b, j);
        match (p, q) {
            (Some(p), Some(q)) => {
                proof {
                    lemma_step(x, k, a@, i as int, p);
                    lemma_step(y, k, b@, j as int, q);
                }
                match place_parts(a, &p, b, &q) {
                    Place::Same => {
                        i = p.next;
                        j = q.next;
                        proof {
                            k = k + 1;
                        }
                    },
                    _ => {
                        proof {
                            lemma_components_strict_total();
                            let lt = component_lt();
                            assert(!lt(x[k], x[k]));
                            assert(lt(x[k], y[k]) || lt(y[k], x[k]));
                            if x.is_prefix_of(y) {
                                assert(y.subrange(0, x.len() as int)[k] == y[k]);
                            }
                        }
                        return Lead::Apart;
                    },
                }
            },
            (None, Some(q)) => {
                proof {
                    lemma_step(y, k, b@, j as int, q);
                }
                assert(x.skip(k).len() == 0);
                assert(x =~= y.subrange(0, x.len() as int));
                return Lead::Above;
            },
            (Some(p), None) => {
                proof {
                    lemma_step(x, k, a@, i as int, p);
                }
                assert(y.skip(k).len() == 0);
                return Lead::Apart;
            },
            (None, None) => {
                assert(x.skip(k).len() == 0 && y.skip(k).len() == 0);
                assert(x =~= y);
                return Lead::Same;
            },
        }
    }
}

/// Whether a path has no component at all.
fn is_blank(path: &[u8]) -> (blank: bool)
    ensures
        blank == (components(path@).len() == 0),
{
    if is_root(path) {
        return false;
    }
    next_part(path, 0).is_none()
}

/// Whether `a` is one of the directories that lead to `b`.
pub fn leads_to(a: &[u8], b: &[u8]) -> (leads: bool)
    ensures
        leads == is_ancestor(components(a@), components(b@)),
{
    let ghost x = components(a@);
    let ghost y = components(b@);
    proof {
        lemma_start(b@);
        lemma_no_inner_root(b@, 0);
    }
    match lead(a, b) {
        Lead::Above => {
            assert(x.len() < y.len()) by {
                if x.len() == y.len() {
                    assert(x =~= y);
                }
            }
            if is_root(b) && is_blank(a) {
                false
            } else {
                proof {
                    if x.len() == 0 {
                        assert(y[0] == components_from(b@, 0)[0]);
                    }
                }
                true
            }
        },
        _ => false,
    }
}

proof fn lemma_component_count(s: Seq<u8>, i: int)
    requires
        0 <= i,
    ensures
        i <= s.len() ==> components_from(s, i).len() <= s.len() - i,
        i > s.len() ==> components_from(s, i).len() == 0,
    decreases s.len() + 1 - i,
{
    if i < s.len() {
        lemma_segment_end(s, i);
        let e = segment_end(s, i);
        lemma_component_count(s, e + 1);
        if e == i {
            assert(s.subrange(i, e).len() == 0);
        }
    }
}

/// How many components a path has.
pub fn component_count(path: &[u8]) -> (count: usize)
    ensures
        count == components(path@).len(),
{
    let ghost x = components(path@);
    let mut count: usize = if is_root(path) {
        1
    } else {
        0
    };
    let mut pos: usize = 0;
    proof {
        lemma_start(path@);
        lemma_component_count(path@, 0);
        if is_absolute(path@) {
            assert(segment_end(path@, 0) == 0);
            assert(path@.subrange(0, 0).len() == 0);
            lemma_component_count(path@, 1);
        }
        assert(x.len() <= path@.len());
    }
    loop
        invariant
            pos <= path@.len(),
            x == components(path@),
            x.len() <= path@.len(),
            stands_at(x, count as int, path@, pos as int),
        decreases path@.len() - pos,
    {
        match next_part(path, pos) {
            None => {
                assert(x.skip(count as int).len() == 0);
                return count;
            },
            Some(part) => {
                proof {
                    lemma_step(x, count as int, path@, pos as int, part);
                }
                assert(count < path.len());
                count = count + 1;
                pos = part.next;
            },
        }
    }
}

/// The bytes of `path[start..end]`.
fn copy_range(path: &[u8], start: usize, end: usize) -> (copy: Vec<u8>)
    requires
        start <= end <= path@.len(),
    ensures
        copy@ == path@.subrange(start as int, end as int),
{
    let mut copy: Vec<u8> = Vec::new();
    append_range(&mut copy, path, start, end);
    copy
}

/// Appends `bytes[start..end]` to `out`.
pub(crate) fn append_range(out: &mut Vec<u8>, bytes: &[u8], start: usize, end: usize)
    requires
        start <= end <= bytes@.len(),
    ensures
        final(out)@ == old(out)@ + bytes@.subrange(start as int, end as int),
{
    let ghost before = out@;
    let mut i: usize = start;
    while i < end
        invariant
            start <= i <= end <= bytes@.len(),
            out@ == before + bytes@.subrange(start as int, i as int),
        decreases end - i,
    {
        out.push(bytes[i]);
        assert(bytes@.subrange(start as int, i as int).push(bytes@[i as int]) =~= bytes@.subrange(
            start as int,
            i + 1,
        ));
        i = i + 1;
    }
}

/// A copy of a byte string.
pub fn copy_bytes(bytes: &[u8]) -> (copy: Vec<u8>)
    ensures
        copy@ == bytes@,
{
    let copy = copy_range(bytes, 0, bytes.len());
    assert(bytes@.subrange(0, bytes@.len() as int) =~= bytes@);
    copy
}

/// The last component of a path, if it is a name.
pub fn file_name(path: &[u8]) -> (name: Option<Vec<u8>>)
    ensures
        match name {
            Some(name) => file_name_of(components(path@)) == Some(name@),
            None => file_name_of(components(path@)) is None,
        },
{
    let ghost x = components(path@);
    let ghost mut k: int = if is_absolute(path@) {
        1
    } else {
        0
    };
    let mut pos: usize = 0;
    let mut last: Option<Part> = None;
    proof {
        lemma_start(path@);
    }
    loop
        invariant
            pos <= path@.len(),
            x == components(path@),
            stands_at(x, k, path@, pos as int),
            match last {
                Some(part) => k > 0 && x[k - 1] == part.component(path@) && part.start <= part.end
                    <= path@.len(),
                None => k == 0 || (k == 1 && x[0] == Component::RootDir),
            },
        ensures
            k == x.len(),
        decreases path@.len() - pos,
    {
        match next_part(path, pos) {
            None => {
                assert(x.skip(k).len() == 0);
                assert(k == x.len());
                break;
            },
            Some(part) => {
                proof {
                    lemma_step(x, k, path@, pos as int, part);
                    k = k + 1;
                }
                pos = part.next;
                last = Some(part);
            },
        }
    }
    match last {
        None => None,
        Some(part) => match part.kind {
            PartKind::Normal => Some(copy_range(path, part.start, part.end)),
            _ => None,
        },
    }
}

/// `name` inside `dir`; an absolute `name` stands for itself.
pub fn join(dir: &[u8], name: &[u8]) -> (path: Vec<u8>)
    ensures
        path@ == joined(dir@, name@),
{
    if is_root(name) {
        return copy_bytes(name);
    }
    let mut path: Vec<u8> = copy_bytes(dir);
    if dir.len() > 0 && dir[dir.len() - 1] != 0x2f {
        path.push(0x2f);
    }
    append_range(&mut path, name, 0, name.len());
    assert(name@.subrange(0, name@.len() as int) =~= name@);
    path
}

/// What follows the last dot of a file name, unless the name starts with that dot.
pub fn extension(name: &[u8]) -> (ext: Option<Vec<u8>>)
    ensures
        match ext {
            Some(ext) => extension_of(name@) == Some(ext@),
            None => extension_of(name@) is None,
        },
{
    if name.len() == 2 && name[0] == 0x2e && name[1] == 0x2e {
        assert(name@ =~= seq![0x2eu8, 0x2eu8]);
        return None;
    }
    let mut i: usize = name.len();
    assert(name@.take(i as int) =~= name@);
    while i > 0
        invariant
            i <= name@.len(),
            last_dot(name@) == last_dot(name@.take(i as int)),
            !(name@ =~= seq![0x2eu8, 0x2eu8]),
        decreases i,
    {
        assert(name@.take(i as int).last() == name@[i - 1]);
        assert(name@.take(i as int).drop_last() =~= name@.take(i - 1));
        if name[i - 1] == 0x2e {
            if i == 1 {
                return None;
            }
            assert(name@.subrange(i as int, name@.len() as int) =~= name@.skip(i as int));
            return Some(copy_range(name, i, name.len()));
        }
        i = i - 1;
    }
    None
}

} // verus!
