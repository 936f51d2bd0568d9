//! The paths of the index files: their components, the order in which they
//! are read, which numbers the packs, and the file names that are written out.
//!
//! A path is a string of bytes in which `/` separates the components. Paths
//! are compared component by component, not byte by byte, so that `a/b`
//! comes before `a-b`.
use crate::bytes::{
    byte_views, copy_range, first_where, lemma_first_where, lemma_first_where_bounds,
    lemma_lex_total, lemma_lex_transitive, lex_lt, lex_relation, Relation,
};
use crate::permutation::{
    is_ascending, is_strict_total_order, lemma_unique_enumeration, occurs_in,
};
use vstd::prelude::*;

verus! {

/// The byte that separates the components of a path.
pub const SEPARATOR: u8 = 0x2f;

/// The byte of which the names `.` and `..` are made.
pub const DOT: u8 = 0x2e;

/// One component of a path.
#[derive(Debug)]
pub enum Component {
    /// The root, for a path that begins with a separator.
    RootDir,
    /// The directory itself, `.`, which counts only at the start of a path.
    CurDir,
    /// The directory above, `..`.
    ParentDir,
    /// A name.
    Normal(Vec<u8>),
}

/// One component of a path, a name as a sequence of bytes.
pub enum Part {
    /// The root.
    RootDir,
    /// The directory itself.
    CurDir,
    /// The directory above.
    ParentDir,
    /// A name.
    Normal(Seq<u8>),
}

impl View for Component {
    type V = Part;

    open spec fn view(&self) -> Part {
        match self {
            Component::RootDir => Part::RootDir,
            Component::CurDir => Part::CurDir,
            Component::ParentDir => Part::ParentDir,
            Component::Normal(name) => Part::Normal(name@),
        }
    }
}

/// The parts that the given components stand for.
pub open spec fn part_views(s: Seq<Component>) -> Seq<Part> {
    Seq::new(s.len(), |i: int| s[i]@)
}

/// Whether a piece of a path is the name `.`.
pub open spec fn is_dot(piece: Seq<u8>) -> bool {
    piece.len() == 1 && piece[0] == DOT
}

/// Whether a piece of a path is the name `..`.
pub open spec fn is_dot_dot(piece: Seq<u8>) -> bool {
    piece.len() == 2 && piece[0] == DOT && piece[1] == DOT
}

/// The components of what stands in `path` from position `from` on, which
/// is the start of the path or a position behind a separator. Nothing
/// between two separators is no component, and `.` is one only at the start.
pub open spec fn components_from(path: Seq<u8>, from: int) -> Seq<Part>
    decreases path.len() - from,
    via components_from_terminates
{
    if from < 0 || from >= path.len() {
        Seq::empty()
    } else {
        let end = first_where(path, from, |b: u8| b == SEPARATOR);
        let piece = path.subrange(from, end);
        let rest = if end < path.len() {
            components_from(path, end + 1)
        } else {
            Seq::empty()
        };
        if piece.len() == 0 {
            rest
        } else if is_dot(piece) {
            if from == 0 {
                seq![Part::CurDir] + rest
            } else {
                rest
            }
        } else if is_dot_dot(piece) {
            seq![Part::ParentDir] + rest
        } else {
            seq![Part::Normal(piece)] + rest
        }
    }
}

#[via_fn]
proof fn components_from_terminates(path: Seq<u8>, from: int) {
    if 0 <= from < path.len() {
        lemma_first_where_bounds(path, from, |b: u8| b == SEPARATOR);
    }
}

/// The components of a path: the root, if the path begins with a separator,
/// and then what stands between the separators.
pub open spec fn components(path: Seq<u8>) -> Seq<Part> {
    if path.len() > 0 && path[0] == SEPARATOR {
        seq![Part::RootDir] + components_from(path, 1)
    } else {
        components_from(path, 0)
    }
}

/// Whether `path` ends in a name: its last component is one.
pub open spec fn has_file_name(path: Seq<u8>) -> bool {
    components(path).len() > 0 && components(path).last() is Normal
}

/// The name in which `path` ends: its last component. A separator or a `.`
/// behind it does not count.
pub open spec fn file_name(path: Seq<u8>) -> Seq<u8> {
    if has_file_name(path) {
        components(path).last()->Normal_0
    } else {
        Seq::empty()
    }
}

/// Every name among the components is a piece of the path: it is not empty,
/// holds no separator and is no longer than the path.
pub proof fn lemma_components_from(path: Seq<u8>, from: int)
    requires
        0 <= from,
    ensures
        forall|k: int|
            0 <= k < components_from(path, from).len() ==> (#[trigger] components_from(
                path,
                from,
            )[k] matches Part::Normal(name) ==> 0 < name.len() <= path.len() && forall|i: int|
                0 <= i < name.len() ==> name[i] != SEPARATOR),
    decreases path.len() - from,
{
    if from < path.len() {
        let p = |b: u8| b == SEPARATOR;
        let end = first_where(path, from, p);
        lemma_first_where_bounds(path, from, p);
        lemma_separator_free(path, from, end);
        if end < path.len() {
            lemma_components_from(path, end + 1);
        }
        let piece = path.subrange(from, end);
        let rest = if end < path.len() {
            components_from(path, end + 1)
        } else {
            Seq::empty()
        };
        let all = components_from(path, from);
        assert forall|k: int| 0 <= k < all.len() implies (#[trigger] all[k] matches Part::Normal(
            name,
        ) ==> 0 < name.len() <= path.len() && forall|i: int|
            0 <= i < name.len() ==> name[i] != SEPARATOR) by {
            if all.len() == rest.len() {
                assert(all[k] == rest[k]);
            } else if k > 0 {
                assert(all[k] == rest[k - 1]);
            }
        }
    }
}

/// No separator stands before the first separator.
proof fn lemma_separator_free(path: Seq<u8>, from: int, end: int)
    requires
        0 <= from <= path.len(),
        end == first_where(path, from, |b: u8| b == SEPARATOR),
    ensures
        from <= end <= path.len(),
        forall|i: int| from <= i < end ==> path[i] != SEPARATOR,
    decreases path.len() - from,
{
    if from < path.len() && path[from] != SEPARATOR {
        lemma_separator_free(path, from + 1, end);
    }
}

/// The file name of a path is no longer than the path and holds no separator.
pub proof fn lemma_file_name(path: Seq<u8>)
    ensures
        file_name(path).len() <= path.len(),
        has_file_name(path) ==> file_name(path).len() > 0,
        forall|i: int| 0 <= i < file_name(path).len() ==> file_name(path)[i] != SEPARATOR,
{
    if has_file_name(path) {
        let c = components(path);
        if path.len() > 0 && path[0] == SEPARATOR {
            lemma_components_from(path, 1);
            let inner = components_from(path, 1);
            assert(c.last() == inner[inner.len() - 1]);
        } else {
            lemma_components_from(path, 0);
        }
    }
}

/// The order of components: the root first, then `.`, then `..`, then the
/// names in the order of their bytes.
pub open spec fn part_rank(p: Part) -> int {
    match p {
        Part::RootDir => 0,
        Part::CurDir => 1,
        Part::ParentDir => 2,
        Part::Normal(_) => 3,
    }
}

/// Whether one component comes before another.
pub open spec fn part_lt(a: Part, b: Part) -> bool {
    part_rank(a) < part_rank(b) || match (a, b) {
        (Part::Normal(x), Part::Normal(y)) => lex_lt(x, y),
        _ => false,
    }
}

/// Of two components exactly one comes first, or they are the same.
pub proof fn lemma_part_total(a: Part, b: Part)
    ensures
        part_lt(a, b) || part_lt(b, a) || a == b,
        !(part_lt(a, b) && part_lt(b, a)),
        !part_lt(a, a),
{
    match (a, b) {
        (Part::Normal(x), Part::Normal(y)) => {
            lemma_lex_total(x, y);
        },
        _ => {},
    }
    match a {
        Part::Normal(x) => {
            lemma_lex_total(x, x);
        },
        _ => {},
    }
}

/// The order of components is transitive.
pub proof fn lemma_part_transitive(a: Part, b: Part, c: Part)
    requires
        part_lt(a, b),
        part_lt(b, c),
    ensures
        part_lt(a, c),
{
    match (a, b, c) {
        (Part::Normal(x), Part::Normal(y), Part::Normal(z)) => {
            lemma_lex_transitive(x, y, z);
        },
        _ => {},
    }
}

/// The order of paths, deciding from component `i` on.
pub open spec fn parts_lt_from(a: Seq<Part>, b: Seq<Part>, i: int) -> bool
    decreases a.len() - i,
{
    if i < 0 || i >= b.len() {
        false
    } else if i >= a.len() {
        true
    } else if a[i] != b[i] {
        part_lt(a[i], b[i])
    } else {
        parts_lt_from(a, b, i + 1)
    }
}

/// The order of paths by their components: at the first component in which
/// two paths differ the smaller component decides; a path that ends where
/// another goes on comes first.
pub open spec fn parts_lt(a: Seq<Part>, b: Seq<Part>) -> bool {
    parts_lt_from(a, b, 0)
}

/// Whether one path comes before another.
pub open spec fn path_lt(a: Seq<u8>, b: Seq<u8>) -> bool {
    parts_lt(components(a), components(b))
}

/// `a` and `b` hold the same components before place `i`.
pub open spec fn same_parts(a: Seq<Part>, b: Seq<Part>, i: int) -> bool {
    &&& 0 <= i <= a.len()
    &&& i <= b.len()
    &&& forall|k: int| 0 <= k < i ==> a[k] == b[k]
}

proof fn lemma_parts_skip(a: Seq<Part>, b: Seq<Part>, i: int)
    requires
        same_parts(a, b, i),
    ensures
        parts_lt(a, b) == parts_lt_from(a, b, i),
    decreases i,
{
    if i > 0 {
        lemma_parts_skip(a, b, i - 1);
    }
}

proof fn lemma_parts_total_from(a: Seq<Part>, b: Seq<Part>, i: int)
    requires
        same_parts(a, b, i),
    ensures
        parts_lt_from(a, b, i) || parts_lt_from(b, a, i) || a == b,
        !(parts_lt_from(a, b, i) && parts_lt_from(b, a, i)),
        a == b ==> !parts_lt_from(a, b, i),
    decreases a.len() - i,
{
    if i < a.len() && i < b.len() {
        lemma_part_total(a[i], b[i]);
        if a[i] == b[i] {
            lemma_parts_total_from(a, b, i + 1);
        }
    } else if i == a.len() && i == b.len() {
        assert(a =~= b);
    }
}

/// Of two paths exactly one comes first, or they have the same components.
pub proof fn lemma_parts_total(a: Seq<Part>, b: Seq<Part>)
    ensures
        parts_lt(a, b) || parts_lt(b, a) || a == b,
        !(parts_lt(a, b) && parts_lt(b, a)),
        a == b ==> !parts_lt(a, b),
{
    lemma_parts_total_from(a, b, 0);
}

proof fn lemma_parts_transitive_from(a: Seq<Part>, b: Seq<Part>, c: Seq<Part>, i: int)
    requires
        0 <= i,
        parts_lt_from(a, b, i),
        parts_lt_from(b, c, i),
    ensures
        parts_lt_from(a, c, i),
    decreases b.len() - i,
{
    if i < a.len() && i < b.len() && i < c.len() {
        if a[i] == b[i] && b[i] == c[i] {
            lemma_parts_transitive_from(a, b, c, i + 1);
        } else if a[i] != b[i] && b[i] != c[i] {
            lemma_part_transitive(a[i], b[i], c[i]);
            lemma_part_total(a[i], c[i]);
        } else {
            lemma_part_total(a[i], c[i]);
        }
    }
}

/// The order of paths is transitive.
pub proof fn lemma_parts_transitive(a: Seq<Part>, b: Seq<Part>, c: Seq<Part>)
    requires
        parts_lt(a, b),
        parts_lt(b, c),
    ensures
        parts_lt(a, c),
{
    lemma_parts_transitive_from(a, b, c, 0);
}

/// The components of a path.
pub fn components_of(path: &[u8]) -> (r: Vec<Component>)
    ensures
        part_views(r@) == components(path@),
{
    let mut out: Vec<Component> = Vec::new();
    let mut from: usize = 0;
    if path.len() > 0 && path[0] == SEPARATOR {
        out.push(Component::RootDir);
        from = 1;
    }
    let ghost start = from;
    assert(part_views(out@) + components_from(path@, from as int) =~= components(path@));
    while from < path.len()
        invariant
            from <= path.len(),
            start <= from,
            start <= 1,
            start == 1 ==> path.len() > 0 && path@[0] == SEPARATOR,
            start == 0 ==> !(path.len() > 0 && path@[0] == SEPARATOR),
            part_views(out@) + components_from(path@, from as int) == components(path@),
        decreases path.len() - from,
    {
        let mut end: usize = from;
        while end < path.len() && path[end] != SEPARATOR
            invariant
                from <= end <= path.len(),
                forall|k: int| from <= k < end ==> #[trigger] path@[k] != SEPARATOR,
            decreases path.len() - end,
        {
            end += 1;
        }
        let ghost before = part_views(out@);
        let ghost rest = if end < path.len() {
            components_from(path@, end + 1)
        } else {
            Seq::empty()
        };
        let ghost piece = path@.subrange(from as int, end as int);
        proof {
            lemma_first_where(path@, from as int, |b: u8| b == SEPARATOR, end as int);
        }
        let n = end - from;
        if n == 0 {
        } else if n == 1 && path[from] == DOT {
            assert(is_dot(piece));
            if from == 0 {
                out.push(Component::CurDir);
                assert(part_views(out@) =~= before + seq![Part::CurDir]);
            }
        } else if n == 2 && path[from] == DOT && path[from + 1] == DOT {
            assert(is_dot_dot(piece));
            out.push(Component::ParentDir);
            assert(part_views(out@) =~= before + seq![Part::ParentDir]);
        } else {
            assert(!is_dot(piece) && !is_dot_dot(piece)) by {
                assert(piece[0] == path@[from as int]);
                if n == 2 {
                    assert(piece[1] == path@[from + 1]);
                }
            }
            let name = copy_range(path, from, end);
            out.push(Component::Normal(name));
            assert(part_views(out@) =~= before + seq![Part::Normal(piece)]);
        }
        assert(part_views(out@) + rest =~= components(path@));
        if end < path.len() {
            from = end + 1;
        } else {
            from = end;
        }
    }
    assert(part_views(out@) + Seq::<Part>::empty() =~= part_views(out@));
    out
}

/// Decides how two components stand to each other.
pub fn component_relation(a: &Component, b: &Component) -> (r: Relation)
    ensures
        (r == Relation::Before) == part_lt(a@, b@),
        (r == Relation::Same) == (a@ == b@),
        (r == Relation::After) == part_lt(b@, a@),
{
    proof {
        lemma_part_total(a@, b@);
    }
    match (a, b) {
        (Component::Normal(x), Component::Normal(y)) => lex_relation(x.as_slice(), y.as_slice()),
        _ => {
            let ra: u8 = match a {
                Component::RootDir => 0,
                Component::CurDir => 1,
                Component::ParentDir => 2,
                Component::Normal(_) => 3,
            };
            let rb: u8 = match b {
                Component::RootDir => 0,
                Component::CurDir => 1,
                Component::ParentDir => 2,
                Component::Normal(_) => 3,
            };
            if ra < rb {
                Relation::Before
            } else if ra > rb {
                Relation::After
            } else {
                Relation::Same
            }
        },
    }
}

/// Decides how two paths, given by their components, stand to each other.
pub fn path_relation(a: &Vec<Component>, b: &Vec<Component>) -> (r: Relation)
    ensures
        (r == Relation::Before) == parts_lt(part_views(a@), part_views(b@)),
        (r == Relation::Same) == (part_views(a@) == part_views(b@)),
        (r == Relation::After) == parts_lt(part_views(b@), part_views(a@)),
{
    let ghost pa = part_views(a@);
    let ghost pb = part_views(b@);
    proof {
        lemma_parts_total(pa, pb);
    }
    let mut i: usize = 0;
    while i < a.len() && i < b.len()
        invariant
            pa == part_views(a@),
            pb == part_views(b@),
            same_parts(pa, pb, i as int),
            same_parts(pb, pa, i as int),
        decreases a.len() - i,
    {
        let r = component_relation(&a[i], &b[i]);
        match r {
            Relation::Same => {},
            _ => {
                proof {
                    lemma_parts_skip(pa, pb, i as int);
                    lemma_parts_skip(pb, pa, i as int);
                    lemma_part_total(pa[i as int], pb[i as int]);
                }
                return r;
            },
        }
        i += 1;
    }
    proof {
        lemma_parts_skip(pa, pb, i as int);
        lemma_parts_skip(pb, pa, i as int);
    }
    if i < b.len() {
        Relation::Before
    } else if i < a.len() {
        Relation::After
    } else {
        assert(pa =~= pb);
        Relation::Same
    }
}

/// The name in which `path` ends, if it ends in one.
pub fn file_name_of(path: &Vec<u8>) -> (r: Option<Vec<u8>>)
    ensures
        has_file_name(path@) ==> (r matches Some(name) && name@ == file_name(path@)),
        !has_file_name(path@) ==> r is None,
{
    let mut parts = components_of(path.as_slice());
    let ghost all = part_views(parts@);
    match parts.pop() {
        Some(Component::Normal(name)) => {
            assert(all.last() == Part::Normal(name@));
            Some(name)
        },
        Some(other) => {
            assert(all.last() == other@);
            None
        },
        None => None,
    }
}

/// The order in which index files are read: by path, and paths of the same
/// components in the order in which they were given.
pub open spec fn path_before(paths: Seq<Seq<u8>>, i: int, j: int) -> bool {
    path_lt(paths[i], paths[j]) || (components(paths[i]) == components(paths[j]) && i < j)
}

/// `order` lists the positions of all `paths`, each once, so that the paths
/// ascend: place `k` of `order` is the position of the path of the pack with
/// ordinal `k`.
pub open spec fn is_path_order(order: Seq<usize>, paths: Seq<Seq<u8>>) -> bool {
    &&& order.len() == paths.len()
    &&& forall|k: int| 0 <= k < order.len() ==> 0 <= #[trigger] order[k] < paths.len()
    &&& forall|k1: int, k2: int|
        0 <= k1 < k2 < order.len() ==> path_before(
            paths,
            #[trigger] order[k1] as int,
            #[trigger] order[k2] as int,
        )
}

/// Of two different positions exactly one comes first.
pub proof fn lemma_path_order_total(paths: Seq<Seq<u8>>, i: int, j: int)
    ensures
        i != j ==> path_before(paths, i, j) || path_before(paths, j, i),
        !(path_before(paths, i, j) && path_before(paths, j, i)),
        !path_before(paths, i, i),
{
    lemma_parts_total(components(paths[i]), components(paths[j]));
    lemma_parts_total(components(paths[i]), components(paths[i]));
}

/// The order of positions is transitive.
pub proof fn lemma_path_order_transitive(paths: Seq<Seq<u8>>, i: int, j: int, k: int)
    requires
        path_before(paths, i, j),
        path_before(paths, j, k),
    ensures
        path_before(paths, i, k),
{
    let a = components(paths[i]);
    let b = components(paths[j]);
    let c = components(paths[k]);
    lemma_parts_total(a, b);
    lemma_parts_total(b, c);
    if parts_lt(a, b) && parts_lt(b, c) {
        lemma_parts_transitive(a, b, c);
    }
}

/// The components of every path.
fn parse_paths(paths: &Vec<Vec<u8>>) -> (parsed: Vec<Vec<Component>>)
    ensures
        parsed.len() == paths.len(),
        forall|i: int|
            0 <= i < paths.len() ==> part_views((#[trigger] parsed@[i])@) == components(paths@[i]@),
{
    let mut parsed: Vec<Vec<Component>> = Vec::with_capacity(paths.len());
    let mut i: usize = 0;
    while i < paths.len()
        invariant
            i <= paths.len(),
            parsed.len() == i,
            forall|k: int|
                0 <= k < i ==> part_views((#[trigger] parsed@[k])@) == components(paths@[k]@),
        decreases paths.len() - i,
    {
        parsed.push(components_of(paths[i].as_slice()));
        i += 1;
    }
    parsed
}

/// Decides whether the path at position `i` is read before the one at position `j`.
fn comes_first(parsed: &Vec<Vec<Component>>, i: usize, j: usize, Ghost(paths): Ghost<Seq<Seq<u8>>>) -> (r:
    bool)
    requires
        i < parsed.len(),
        j < parsed.len(),
        parsed.len() == paths.len(),
        forall|k: int|
            0 <= k < paths.len() ==> part_views((#[trigger] parsed@[k])@) == components(paths[k]),
    ensures
        r == path_before(paths, i as int, j as int),
{
    proof {
        lemma_parts_total(components(paths[i as int]), components(paths[j as int]));
    }
    match path_relation(&parsed[i], &parsed[j]) {
        Relation::Before => true,
        Relation::After => false,
        Relation::Same => i < j,
    }
}

/// Sorts the paths, component by component: the result lists their
/// positions in ascending order of the paths. The place of a position in the
/// result is the ordinal of its pack.
pub fn sort_paths(paths: &Vec<Vec<u8>>) -> (order: Vec<usize>)
    ensures
        is_path_order(order@, byte_views(paths@)),
{
    let ghost views = byte_views(paths@);
    let parsed = parse_paths(paths);
    let mut order: Vec<usize> = Vec::with_capacity(paths.len());
    let mut i: usize = 0;
    while i < paths.len()
        invariant
            i <= paths.len(),
            views == byte_views(paths@),
            parsed.len() == paths.len(),
            forall|k: int|
                0 <= k < paths.len() ==> part_views((#[trigger] parsed@[k])@) == components(
                    views[k],
                ),
            order.len() == i,
            forall|k: int| 0 <= k < order.len() ==> 0 <= #[trigger] order@[k] < i,
            forall|k1: int, k2: int|
                0 <= k1 < k2 < order.len() ==> path_before(
                    views,
                    #[trigger] order@[k1] as int,
                    #[trigger] order@[k2] as int,
                ),
        decreases paths.len() - i,
    {
        let mut pos: usize = 0;
        while pos < order.len() && comes_first(&parsed, order[pos], i, Ghost(views))
            invariant
                pos <= order.len(),
                order.len() == i,
                i < paths.len(),
                views == byte_views(paths@),
                parsed.len() == paths.len(),
                forall|k: int|
                    0 <= k < paths.len() ==> part_views((#[trigger] parsed@[k])@) == components(
                        views[k],
                    ),
                forall|k: int| 0 <= k < order.len() ==> 0 <= #[trigger] order@[k] < i,
                forall|k: int|
                    0 <= k < pos ==> path_before(views, #[trigger] order@[k] as int, i as int),
            decreases order.len() - pos,
        {
            pos += 1;
        }
        let ghost before = order@;
        order.insert(pos, i);
        proof {
            let after = order@;
            assert forall|k1: int, k2: int| 0 <= k1 < k2 < after.len() implies path_before(
                views,
                #[trigger] after[k1] as int,
                #[trigger] after[k2] as int,
            ) by {
                if k2 < pos {
                    assert(after[k1] == before[k1] && after[k2] == before[k2]);
                } else if k2 == pos {
                    assert(after[k1] == before[k1]);
                } else if k1 == pos {
                    assert(after[k2] == before[k2 - 1]);
                    assert(before[pos as int] < i);
                    lemma_path_order_total(views, before[pos as int] as int, i as int);
                    if k2 - 1 > pos {
                        assert(path_before(views, before[pos as int] as int, before[k2 - 1] as int));
                        lemma_path_order_transitive(
                            views,
                            i as int,
                            before[pos as int] as int,
                            before[k2 - 1] as int,
                        );
                    }
                } else if k1 < pos {
                    assert(after[k1] == before[k1] && after[k2] == before[k2 - 1]);
                } else {
                    assert(after[k1] == before[k1 - 1] && after[k2] == before[k2 - 1]);
                }
            }
            assert forall|k: int| 0 <= k < after.len() implies 0 <= #[trigger] after[k] < i + 1 by {
                if k < pos {
                    assert(after[k] == before[k]);
                } else if k > pos {
                    assert(after[k] == before[k - 1]);
                }
            }
        }
        i += 1;
    }
    order
}

/// The file names of the paths in the given order.
pub open spec fn file_names(paths: Seq<Seq<u8>>, order: Seq<usize>) -> Seq<Seq<u8>> {
    Seq::new(order.len(), |k: int| file_name(paths[order[k] as int]))
}

/// Whether every one of the paths ends in a file name.
pub open spec fn all_have_file_names(paths: Seq<Seq<u8>>) -> bool {
    forall|i: int| 0 <= i < paths.len() ==> has_file_name(#[trigger] paths[i])
}

/// Decides whether every one of the paths ends in a file name.
pub fn check_file_names(paths: &Vec<Vec<u8>>) -> (r: bool)
    ensures
        r == all_have_file_names(byte_views(paths@)),
{
    let mut i: usize = 0;
    while i < paths.len()
        invariant
            i <= paths.len(),
            forall|k: int| 0 <= k < i ==> has_file_name(#[trigger] byte_views(paths@)[k]),
        decreases paths.len() - i,
    {
        if file_name_of(&paths[i]).is_none() {
            assert(!has_file_name(byte_views(paths@)[i as int]));
            return false;
        }
        i += 1;
    }
    true
}

/// The file names of the paths, in the given order.
pub fn sorted_file_names(paths: &Vec<Vec<u8>>, order: &Vec<usize>) -> (names: Vec<Vec<u8>>)
    requires
        all_have_file_names(byte_views(paths@)),
        forall|k: int| 0 <= k < order.len() ==> 0 <= #[trigger] order@[k] < paths.len(),
    ensures
        byte_views(names@) == file_names(byte_views(paths@), order@),
{
    let mut names: Vec<Vec<u8>> = Vec::with_capacity(order.len());
    let mut k: usize = 0;
    while k < order.len()
        invariant
            k <= order.len(),
            names.len() == k,
            all_have_file_names(byte_views(paths@)),
            forall|j: int| 0 <= j < order.len() ==> 0 <= #[trigger] order@[j] < paths.len(),
            forall|j: int|
                0 <= j < k ==> (#[trigger] names@[j])@ == file_name(paths@[order@[j] as int]@),
        decreases order.len() - k,
    {
        let i = order[k];
        assert(has_file_name(byte_views(paths@)[i as int]));
        let name = file_name_of(&paths[i]);
        names.push(name.unwrap());
        k += 1;
    }
    assert(byte_views(names@) =~= file_names(byte_views(paths@), order@));
    names
}

/// The paths in the order of the pack ordinals never descend.
pub proof fn lemma_order_ascends(paths: Seq<Seq<u8>>, order: Seq<usize>, k1: int, k2: int)
    requires
        is_path_order(order, paths),
        0 <= k1 < k2 < order.len(),
    ensures
        !path_lt(paths[order[k2] as int], paths[order[k1] as int]),
        order[k1] != order[k2],
{
    assert(path_before(paths, order[k1] as int, order[k2] as int));
    lemma_parts_total(components(paths[order[k1] as int]), components(paths[order[k2] as int]));
}

/// The order of given paths is one sequence and no other.
pub proof fn lemma_path_order_unique(paths: Seq<Seq<u8>>, o1: Seq<usize>, o2: Seq<usize>)
    requires
        is_path_order(o1, paths),
        is_path_order(o2, paths),
    ensures
        o1 == o2,
{
    let lt = |i: usize, j: usize| path_before(paths, i as int, j as int);
    assert(is_strict_total_order(lt)) by {
        assert forall|x: usize, y: usize| !(#[trigger] lt(x, y) && lt(y, x)) by {
            lemma_path_order_total(paths, x as int, y as int);
        }
        assert forall|x: usize, y: usize| x != y implies #[trigger] lt(x, y) || lt(y, x) by {
            lemma_path_order_total(paths, x as int, y as int);
        }
        assert forall|x: usize, y: usize, z: usize| #[trigger] lt(x, y) && #[trigger] lt(
            y,
            z,
        ) implies lt(x, z) by {
            lemma_path_order_transitive(paths, x as int, y as int, z as int);
        }
    }
    assert(is_ascending(o1, lt));
    assert(is_ascending(o2, lt));
    lemma_covers(paths, o1, o2);
    lemma_covers(paths, o2, o1);
    lemma_unique_enumeration(o1, o2, lt);
}

/// Every position that one order of the paths lists, another lists too.
proof fn lemma_covers(paths: Seq<Seq<u8>>, o1: Seq<usize>, o2: Seq<usize>)
    requires
        is_path_order(o1, paths),
        is_path_order(o2, paths),
    ensures
        occurs_in(o1, o2),
{
    let p = Seq::new(o2.len(), |k: int| o2[k] as int);
    assert forall|i: int, j: int| 0 <= i < p.len() && 0 <= j < p.len() && i != j implies p[i]
        != p[j] by {
        lemma_path_order_total(paths, p[i], p[j]);
        if i < j {
            assert(path_before(paths, o2[i] as int, o2[j] as int));
        } else {
            assert(path_before(paths, o2[j] as int, o2[i] as int));
        }
    }
    assert forall|k: int| 0 <= k < p.len() implies 0 <= #[trigger] p[k] < p.len() by {
        assert(0 <= o2[k] < paths.len());
    }
    assert forall|k: int| 0 <= k < o1.len() implies o2.contains(#[trigger] o1[k]) by {
        assert(0 <= o1[k] < paths.len());
        crate::permutation::lemma_positions_cover(p, o1[k] as int);
        let j = choose|j: int| 0 <= j < p.len() && p[j] == o1[k] as int;
        assert(o2[j] == o1[k]);
    }
}

} // verus!
