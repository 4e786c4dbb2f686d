use vstd::prelude::*;

verus! {

/// An edge between two vertex numbers.
pub type Edge = (usize, usize);

/// Offsets of the four corners of a grid cell, numbered
/// `0 = (0, 0)`, `1 = (1, 0)`, `2 = (0, 1)`, `3 = (1, 1)`.
pub open spec fn corner_spec(i: usize) -> (i32, i32) {
    if i == 0 {
        (0, 0)
    } else if i == 1 {
        (1, 0)
    } else if i == 2 {
        (0, 1)
    } else {
        (1, 1)
    }
}

pub fn corner(i: usize) -> (r: (i32, i32))
    requires
        i < 4,
    ensures
        r == corner_spec(i),
{
    match i {
        0 => (0, 0),
        1 => (1, 0),
        2 => (0, 1),
        _ => (1, 1),
    }
}

/// Identifies the grid edge that joins corners `edge.0` and `edge.1` of the
/// cell at `(x, y)`: the x offset of the first corner, the y offset of the
/// second, and whether the edge runs horizontally.
pub fn vertex_id(x: usize, y: usize, edge: Edge) -> (r: (i32, i32, bool))
    requires
        x < i32::MAX,
        y < i32::MAX,
        edge.0 < 4,
        edge.1 < 4,
    ensures
        r.0 == x + corner_spec(edge.0).0,
        r.1 == y + corner_spec(edge.1).1,
        r.2 == (corner_spec(edge.1).1 == corner_spec(edge.0).1),
{
    let (a, b) = edge;
    let pa = corner(a);
    let pb = corner(b);
    let dy = pb.1 - pa.1;
    let is_horizontal = dy == 0;
    (x as i32 + pa.0, y as i32 + pb.1, is_horizontal)
}

/// Corner `i` of a cell lies below the level in case `case`: bit `i` of
/// the case number.
pub open spec fn corner_below(case: usize, i: usize) -> bool {
    (case as int / if i == 0 {
        1int
    } else if i == 1 {
        2int
    } else if i == 2 {
        4int
    } else {
        8int
    }) % 2 == 1
}

/// The edge joins a corner below the level to one that is not.
pub open spec fn crosses(case: usize, e: Edge) -> bool {
    corner_below(case, e.0) != corner_below(case, e.1)
}

/// The four sides of a cell, as pairs of corners.
pub open spec fn is_side(e: Edge) -> bool {
    e == (0usize, 1usize) || e == (0usize, 2usize) || e == (1usize, 3usize) || e == (2usize, 3usize)
}

/// The same side, in either direction.
pub open spec fn same_side(a: Edge, b: Edge) -> bool {
    (a.0 == b.0 && a.1 == b.1) || (a.0 == b.1 && a.1 == b.0)
}

/// The segment, if there is one, runs along side `e`.
pub open spec fn touches(segment: Option<(Edge, Edge)>, e: Edge) -> bool {
    match segment {
        Some(seg) => same_side(seg.0, e) || same_side(seg.1, e),
        None => false,
    }
}

/// The segment, if there is one, joins two sides that the contour crosses.
pub open spec fn joins_crossings(case: usize, segment: Option<(Edge, Edge)>) -> bool {
    match segment {
        Some(seg) => is_side(seg.0) && is_side(seg.1) && crosses(case, seg.0) && crosses(case, seg.1),
        None => true,
    }
}

/// The case number of a cell from which of its corners lie below the level,
/// corner `i` giving bit `i`.
pub fn cell_case(below: [bool; 4]) -> (r: usize)
    ensures
        r < 16,
        forall|i: usize| i < 4 ==> corner_below(r, i) == below@[i as int],
{
    let mut case: usize = 0;
    if below[0] {
        case += 1;
    }
    if below[1] {
        case += 2;
    }
    if below[2] {
        case += 4;
    }
    if below[3] {
        case += 8;
    }
    case
}

/// The contour segments through a cell, as pairs of the sides they join.
///
/// Every segment joins two sides whose corners lie on different sides of
/// the level, and every such side carries a segment.
pub fn edge_cases(case: usize) -> (r: [Option<(Edge, Edge)>; 2])
    requires
        case < 16,
    ensures
        joins_crossings(case, r@[0]),
        joins_crossings(case, r@[1]),
        forall|e: Edge| is_side(e) && crosses(case, e) ==> touches(r@[0], e) || touches(r@[1], e),
{
    let r: [Option<(Edge, Edge)>; 2] = match case {
        0 => [None, None],
        1 => [Some(((0, 2), (0, 1))), None],
        2 => [Some(((0, 1), (1, 3))), None],
        3 => [Some(((0, 2), (1, 3))), None],
        4 => [Some(((0, 2), (2, 3))), None],
        5 => [Some(((0, 1), (2, 3))), None],
        6 => [Some(((0, 2), (2, 3))), Some(((0, 1), (1, 3)))],
        7 => [Some(((2, 3), (1, 3))), None],
        8 => [Some(((1, 3), (2, 3))), None],
        9 => [Some(((0, 2), (0, 1))), Some(((2, 3), (1, 3)))],
        10 => [Some(((2, 3), (0, 1))), None],
        11 => [Some(((2, 3), (0, 2))), None],
        12 => [Some(((1, 3), (0, 2))), None],
        13 => [Some(((1, 3), (0, 1))), None],
        14 => [Some(((0, 1), (0, 2))), None],
        _ => [None, None],
    };
    r
}

/// Index of the first vertex that still has an edge left, if any.
pub fn next_non_empty(residual: &Vec<Vec<usize>>) -> (r: Option<usize>)
    ensures
        match r {
            Some(i) => i < residual.len() && residual[i as int].len() > 0
                && forall|j: int| 0 <= j < i ==> #[trigger] residual[j].len() == 0,
            None => forall|j: int| 0 <= j < residual.len() ==> #[trigger] residual[j].len() == 0,
        },
{
    let mut i: usize = 0;
    while i < residual.len()
        invariant
            i <= residual.len(),
            forall|j: int| 0 <= j < i ==> #[trigger] residual[j].len() == 0,
        decreases residual.len() - i,
    {
        if residual[i].len() > 0 {
            return Some(i);
        }
        i += 1;
    }
    None
}

/// The given vertex, if it still has an edge left.
pub fn continuation(residual: &Vec<Vec<usize>>, vertex: Option<&usize>) -> (r: Option<usize>)
    requires
        vertex matches Some(v) ==> *v < residual.len(),
    ensures
        r == match vertex {
            Some(v) => if residual[*v as int].len() > 0 { Some(*v) } else { None },
            None => None,
        },
{
    match vertex {
        Some(number) => {
            if residual[*number].len() > 0 {
                Some(*number)
            } else {
                None
            }
        },
        None => None,
    }
}

/// The undirected edge between `a` and `b`, smaller vertex first.
pub open spec fn norm(a: usize, b: usize) -> (usize, usize) {
    if a <= b {
        (a, b)
    } else {
        (b, a)
    }
}

/// The edges that a chain walks, one for each pair of neighbouring vertices.
pub open spec fn chain_links(c: Seq<usize>) -> Seq<(usize, usize)> {
    if c.len() == 0 {
        Seq::empty()
    } else {
        Seq::new((c.len() - 1) as nat, |i: int| norm(c[i], c[i + 1]))
    }
}

/// The edges that a list of chains walks, chain by chain.
pub open spec fn all_links(cs: Seq<Seq<usize>>) -> Seq<(usize, usize)>
    decreases cs.len(),
{
    if cs.len() == 0 {
        Seq::empty()
    } else {
        all_links(cs.drop_last()) + chain_links(cs.last())
    }
}

/// The chains as sequences of vertex numbers.
pub open spec fn chains_view(r: Seq<Vec<usize>>) -> Seq<Seq<usize>> {
    r.map_values(|c: Vec<usize>| c@)
}

/// `e` is one of the given edges, in either direction.
pub open spec fn is_input_edge(edges: Seq<Edge>, e: (usize, usize)) -> bool {
    exists|k: int| 0 <= k < edges.len() && norm(edges[k].0, edges[k].1) == e
}

/// Vertex `a` still has an edge to `b` waiting.
spec fn waiting(rs: Seq<Vec<usize>>, a: usize, b: usize) -> bool {
    a < rs.len() && rs[a as int]@.contains(b)
}

/// Edges still to be walked: a symmetric lookup of input edges without loops.
spec fn residual_ok(rs: Seq<Vec<usize>>, edges: Seq<Edge>) -> bool {
    &&& forall|a: int, j: int|
        0 <= a < rs.len() && 0 <= j < rs[a].len() ==> #[trigger] rs[a][j] < rs.len()
    &&& forall|a: usize, b: usize| #[trigger] waiting(rs, a, b) ==> waiting(rs, b, a)
    &&& forall|a: usize| !waiting(rs, a, a)
    &&& forall|a: usize, b: usize| #[trigger] waiting(rs, a, b) ==> is_input_edge(edges, norm(a, b))
}

/// Edges already walked: each once, none still waiting, and together with
/// those waiting they make up the input.
spec fn links_ok(rs: Seq<Vec<usize>>, edges: Seq<Edge>, links: Seq<(usize, usize)>) -> bool {
    &&& links.no_duplicates()
    &&& forall|i: int| 0 <= i < links.len() ==> is_input_edge(edges, #[trigger] links[i])
    &&& forall|i: int| 0 <= i < links.len() ==> !waiting(rs, #[trigger] links[i].0, links[i].1)
    &&& forall|k: int|
        0 <= k < edges.len() ==> waiting(rs, #[trigger] edges[k].0, edges[k].1) || links.contains(
            norm(edges[k].0, edges[k].1),
        )
}

/// Number of edge ends still waiting.
spec fn total(rs: Seq<Vec<usize>>) -> nat
    decreases rs.len(),
{
    if rs.len() == 0 {
        0
    } else {
        total(rs.drop_last()) + rs.last()@.len()
    }
}

proof fn lemma_total_update(rs: Seq<Vec<usize>>, i: int, v: Vec<usize>)
    requires
        0 <= i < rs.len(),
    ensures
        total(rs.update(i, v)) + rs[i].len() == total(rs) + v.len(),
    decreases rs.len(),
{
    if i == rs.len() - 1 {
        assert(rs.update(i, v).drop_last() =~= rs.drop_last());
    } else {
        lemma_total_update(rs.drop_last(), i, v);
        assert(rs.update(i, v).drop_last() =~= rs.drop_last().update(i, v));
    }
}

fn holds(c: &Vec<usize>, x: usize) -> (r: bool)
    ensures
        r == c@.contains(x),
{
    let mut i: usize = 0;
    while i < c.len()
        invariant
            i <= c.len(),
            forall|j: int| 0 <= j < i ==> c[j] != x,
        decreases c.len() - i,
    {
        if c[i] == x {
            return true;
        }
        i += 1;
    }
    false
}

/// The first candidate that is not yet in the chain.
fn first_not_in(candidates: &Vec<usize>, chain: &Vec<usize>) -> (r: Option<usize>)
    ensures
        match r {
            Some(b) => candidates@.contains(b) && !chain@.contains(b),
            None => forall|y: usize| candidates@.contains(y) ==> chain@.contains(y),
        },
{
    let mut i: usize = 0;
    while i < candidates.len()
        invariant
            i <= candidates.len(),
            forall|j: int| 0 <= j < i ==> chain@.contains(#[trigger] candidates[j]),
        decreases candidates.len() - i,
    {
        if !holds(chain, candidates[i]) {
            return Some(candidates[i]);
        }
        i += 1;
    }
    None
}

/// `v` without any copy of `x`.
fn remove_all(v: &Vec<usize>, x: usize) -> (r: Vec<usize>)
    ensures
        forall|y: usize| r@.contains(y) <==> (v@.contains(y) && y != x),
        r.len() <= v.len(),
        v@.contains(x) ==> r.len() < v.len(),
{
    let mut r: Vec<usize> = Vec::new();
    let mut i: usize = 0;
    while i < v.len()
        invariant
            i <= v.len(),
            r.len() <= i,
            forall|y: usize| r@.contains(y) <==> (v@.subrange(0, i as int).contains(y) && y != x),
            v@.subrange(0, i as int).contains(x) ==> r.len() < i,
        decreases v.len() - i,
    {
        let ghost before = r@;
        let ghost seen = v@.subrange(0, i as int);
        assert(v@.subrange(0, i + 1) =~= seen.push(v[i as int]));
        if v[i] != x {
            r.push(v[i]);
        }
        assert forall|y: usize| r@.contains(y) <==> (seen.push(v[i as int]).contains(y) && y != x) by {
            let ext = seen.push(v[i as int]);
            if r@.contains(y) {
                let j = choose|j: int| 0 <= j < r@.len() && r@[j] == y;
                if j < before.len() {
                    assert(before[j] == y);
                    assert(before.contains(y));
                    let k = choose|k: int| 0 <= k < seen.len() && seen[k] == y;
                    assert(ext[k] == y);
                } else {
                    assert(y == v[i as int]);
                    assert(ext[seen.len() as int] == y);
                }
                assert(ext.contains(y));
            }
            if seen.push(v[i as int]).contains(y) && y != x {
                let j = choose|j: int| 0 <= j < seen.len() + 1 && seen.push(v[i as int])[j] == y;
                if j < seen.len() {
                    assert(seen[j] == y);
                    assert(before.contains(y));
                    let k = choose|k: int| 0 <= k < before.len() && before[k] == y;
                    assert(r@[k] == y);
                } else {
                    assert(r@[r@.len() - 1] == y);
                }
            }
        }
        i += 1;
    }
    assert(v@.subrange(0, v.len() as int) =~= v@);
    r
}

proof fn lemma_take_edge(
    rs: Seq<Vec<usize>>,
    rs2: Seq<Vec<usize>>,
    edges: Seq<Edge>,
    links: Seq<(usize, usize)>,
    a: usize,
    b: usize,
)
    requires
        residual_ok(rs, edges),
        links_ok(rs, edges, links),
        waiting(rs, a, b),
        rs2.len() == rs.len(),
        rs.len() <= usize::MAX,
        forall|x: usize, y: usize|
            #[trigger] waiting(rs2, x, y) <==> (waiting(rs, x, y) && !(x == a && y == b) && !(x == b
                && y == a)),
        forall|x: int, j: int|
            0 <= x < rs2.len() && 0 <= j < rs2[x].len() ==> rs2[x]@.contains(#[trigger] rs2[x][j]),
    ensures
        residual_ok(rs2, edges),
        links_ok(rs2, edges, links.push(norm(a, b))),
{
    let n = norm(a, b);
    assert(waiting(rs, b, a));
    let l2 = links.push(n);
    assert forall|x: int, j: int| 0 <= x < rs2.len() && 0 <= j < rs2[x].len() implies #[trigger] rs2[x][j] < rs2.len() by {
        let y = rs2[x][j];
        assert(rs2[x]@.contains(y));
        assert(waiting(rs2, x as usize, y));
        assert(waiting(rs, x as usize, y));
        let k = choose|k: int| 0 <= k < rs[x]@.len() && rs[x]@[k] == y;
        assert(rs[x][k] < rs.len());
    }
    assert forall|i: int| 0 <= i < links.len() implies links[i] != n by {
        assert(!waiting(rs, links[i].0, links[i].1));
    }
    assert(l2.no_duplicates()) by {
        assert forall|i: int, j: int| 0 <= i < l2.len() && 0 <= j < l2.len() && i != j implies l2[i] != l2[j] by {
            if i < links.len() && j < links.len() {
                assert(links[i] != links[j]);
            } else if i < links.len() {
                assert(links[i] != n);
            } else {
                assert(links[j] != n);
            }
        }
    }
    assert forall|i: int| 0 <= i < l2.len() implies is_input_edge(edges, #[trigger] l2[i]) && !waiting(rs2, l2[i].0, l2[i].1) by {
        if i < links.len() {
            assert(l2[i] == links[i]);
        } else {
            assert(l2[i] == n);
        }
    }
    assert forall|k: int| 0 <= k < edges.len() implies waiting(rs2, #[trigger] edges[k].0, edges[k].1) || l2.contains(
            norm(edges[k].0, edges[k].1)) by {
        if links.contains(norm(edges[k].0, edges[k].1)) {
            let i = choose|i: int| 0 <= i < links.len() && links[i] == norm(edges[k].0, edges[k].1);
            assert(l2[i] == links[i]);
        } else if !waiting(rs2, edges[k].0, edges[k].1) {
            assert(l2[links.len() as int] == n);
        }
    }
}

/// Removes the edge between `a` and `b` from the edges still waiting.
fn take_edge(
    residual: &mut Vec<Vec<usize>>,
    a: usize,
    b: usize,
    Ghost(edges): Ghost<Seq<Edge>>,
    Ghost(links): Ghost<Seq<(usize, usize)>>,
)
    requires
        residual_ok(old(residual)@, edges),
        links_ok(old(residual)@, edges, links),
        waiting(old(residual)@, a, b),
    ensures
        final(residual).len() == old(residual).len(),
        residual_ok(final(residual)@, edges),
        links_ok(final(residual)@, edges, links.push(norm(a, b))),
        total(final(residual)@) < total(old(residual)@),
{
    let ghost rs = residual@;
    proof {
        assert(rs[a as int]@.contains(b));
        let k = choose|k: int| 0 <= k < rs[a as int]@.len() && rs[a as int]@[k] == b;
        assert(rs[a as int][k] < rs.len());
        assert(waiting(rs, b, a));
        assert(rs.len() == residual.len());
    }
    let ra = remove_all(&residual[a], b);
    let rb = remove_all(&residual[b], a);
    residual.set(a, ra);
    residual.set(b, rb);
    proof {
        let rs2 = residual@;
        assert(rs2 =~= rs.update(a as int, ra).update(b as int, rb));
        assert forall|x: usize, y: usize|
            #[trigger] waiting(rs2, x, y) <==> (waiting(rs, x, y) && !(x == a && y == b) && !(x == b
                && y == a)) by {
            if x == a {
                assert(rs2[x as int] == ra);
            } else if x == b {
                assert(rs2[x as int] == rb);
            } else if x < rs.len() {
                assert(rs2[x as int] == rs[x as int]);
            }
        }
        assert forall|x: int, j: int|
            0 <= x < rs2.len() && 0 <= j < rs2[x].len() implies rs2[x]@.contains(#[trigger] rs2[x][j]) by {
            assert(rs2[x]@[j] == rs2[x][j]);
        }
        lemma_take_edge(rs, rs2, edges, links, a, b);
        lemma_total_update(rs, a as int, ra);
        lemma_total_update(rs.update(a as int, ra), b as int, rb);
    }
}

proof fn lemma_chain_links_push(c: Seq<usize>, b: usize)
    requires
        c.len() >= 1,
    ensures
        chain_links(c.push(b)) =~= chain_links(c).push(norm(c.last(), b)),
{
}

proof fn lemma_chain_links_prepend(c: Seq<usize>, b: usize)
    requires
        c.len() >= 1,
    ensures
        chain_links(seq![b] + c) =~= seq![norm(b, c[0])] + chain_links(c),
{
    let l = chain_links(seq![b] + c);
    assert forall|i: int| 1 <= i < l.len() implies l[i] == chain_links(c)[i - 1] by {
        assert((seq![b] + c)[i] == c[i - 1]);
        assert((seq![b] + c)[i + 1] == c[i]);
    }
}

proof fn lemma_insert_front<T>(a: Seq<T>, b: Seq<T>, y: T)
    requires
        (a + b).push(y).no_duplicates(),
    ensures
        (a + (seq![y] + b)).no_duplicates(),
        forall|x: T| #[trigger] (a + (seq![y] + b)).contains(x) <==> (a + b).push(y).contains(x),
{
    let s = (a + b).push(y);
    let t = a + (seq![y] + b);
    // position of each element of `t` within `s`
    let pos = |i: int| if i < a.len() { i } else if i == a.len() { s.len() - 1 } else { i - 1 };
    assert forall|i: int| 0 <= i < t.len() implies 0 <= pos(i) < s.len() && t[i] == s[pos(i)] by {
    }
    assert forall|i: int, j: int| 0 <= i < t.len() && 0 <= j < t.len() && i != j implies t[i] != t[j] by {
        assert(t[i] == s[pos(i)]);
        assert(t[j] == s[pos(j)]);
    }
    assert forall|x: T| #[trigger] t.contains(x) <==> s.contains(x) by {
        if t.contains(x) {
            let i = choose|i: int| 0 <= i < t.len() && t[i] == x;
            assert(s[pos(i)] == x);
        }
        if s.contains(x) {
            let j = choose|j: int| 0 <= j < s.len() && s[j] == x;
            if j < a.len() {
                assert(t[j] == x);
            } else if j == s.len() - 1 {
                assert(t[a.len() as int] == x);
            } else {
                assert(t[j + 1] == x);
            }
        }
    }
}

proof fn lemma_links_same(
    rs: Seq<Vec<usize>>,
    edges: Seq<Edge>,
    l1: Seq<(usize, usize)>,
    l2: Seq<(usize, usize)>,
)
    requires
        links_ok(rs, edges, l1),
        l2.no_duplicates(),
        forall|x: (usize, usize)| #[trigger] l2.contains(x) <==> l1.contains(x),
    ensures
        links_ok(rs, edges, l2),
{
    assert forall|i: int| 0 <= i < l2.len() implies is_input_edge(edges, #[trigger] l2[i]) && !waiting(rs, l2[i].0, l2[i].1) by {
        assert(l2.contains(l2[i]));
        let j = choose|j: int| 0 <= j < l1.len() && l1[j] == l2[i];
        assert(is_input_edge(edges, l1[j]));
    }
}

proof fn lemma_chains_push(cs: Seq<Vec<usize>>, c: Vec<usize>)
    ensures
        all_links(chains_view(cs.push(c))) =~= all_links(chains_view(cs)) + chain_links(c@),
{
    assert(chains_view(cs.push(c)).drop_last() =~= chains_view(cs));
}

/// Joins a bag of edges into chains: `[(0, 1), (1, 2)]` gives `[[0, 1, 2]]`.
///
/// Each chain is a path of at least two distinct vertices. Every edge of
/// the input is walked by exactly one step of exactly one chain, in one
/// direction or the other, and no chain steps along anything else.
pub fn find_chains(edges: &[Edge]) -> (chains: Vec<Vec<usize>>)
    requires
        forall|k: int|
            0 <= k < edges@.len() ==> #[trigger] edges@[k].0 != edges@[k].1 && edges@[k].0
                < usize::MAX && edges@[k].1 < usize::MAX,
    ensures
        forall|ci: int|
            0 <= ci < chains.len() ==> #[trigger] chains[ci]@.len() >= 2
                && chains[ci]@.no_duplicates(),
        all_links(chains_view(chains@)).no_duplicates(),
        forall|e: (usize, usize)|
            #[trigger] all_links(chains_view(chains@)).contains(e) <==> is_input_edge(edges@, e),
{
    // 1. the largest vertex number sizes the lookup table
    if edges.len() == 0 {
        let chains: Vec<Vec<usize>> = Vec::new();
        proof {
            assert(all_links(chains_view(chains@)) =~= Seq::<(usize, usize)>::empty());
        }
        return chains;
    }
    let mut top: usize = 0;
    let mut i: usize = 0;
    while i < edges.len()
        invariant
            i <= edges.len(),
            forall|k: int| 0 <= k < i ==> #[trigger] edges@[k].0 <= top && edges@[k].1 <= top,
            top < usize::MAX,
            forall|k: int|
                0 <= k < edges@.len() ==> #[trigger] edges@[k].0 != edges@[k].1 && edges@[k].0
                    < usize::MAX && edges@[k].1 < usize::MAX,
        decreases edges.len() - i,
    {
        let (a, b) = edges[i];
        if a > top {
            top = a;
        }
        if b > top {
            top = b;
        }
        i += 1;
    }
    let n = top + 1;

    // 2. for each vertex, the vertices it still has an edge to
    let mut residual: Vec<Vec<usize>> = Vec::new();
    while residual.len() < n
        invariant
            residual.len() <= n,
            forall|x: int| 0 <= x < residual.len() ==> #[trigger] residual[x].len() == 0,
        decreases n - residual.len(),
    {
        residual.push(Vec::new());
    }
    proof {
        assert forall|a: usize, b: usize| !waiting(residual@, a, b) by {
            if a < residual.len() {
                assert(residual[a as int].len() == 0);
            }
        }
    }
    let mut i: usize = 0;
    while i < edges.len()
        invariant
            i <= edges.len(),
            residual.len() == n,
            forall|k: int| 0 <= k < edges@.len() ==> #[trigger] edges@[k].0 < n && edges@[k].1 < n,
            forall|k: int|
                0 <= k < edges@.len() ==> #[trigger] edges@[k].0 != edges@[k].1 && edges@[k].0
                    < usize::MAX && edges@[k].1 < usize::MAX,
            residual_ok(residual@, edges@),
            forall|k: int| 0 <= k < i ==> waiting(residual@, #[trigger] edges@[k].0, edges@[k].1),
        decreases edges.len() - i,
    {
        let (a, b) = edges[i];
        let ghost rs = residual@;
        let mut ra = residual[a].clone();
        ra.push(b);
        residual.set(a, ra);
        let mut rb = residual[b].clone();
        rb.push(a);
        residual.set(b, rb);
        proof {
            let rs2 = residual@;
            assert(is_input_edge(edges@, norm(a, b)));
            assert(is_input_edge(edges@, norm(b, a)));
            assert forall|x: usize, y: usize|
                #[trigger] waiting(rs2, x, y) <==> (waiting(rs, x, y) || (x == a && y == b) || (x == b
                    && y == a)) by {
                if x == a || x == b {
                    assert(rs2[x as int]@ =~= rs[x as int]@.push(if x == a { b } else { a }));
                    if rs2[x as int]@.contains(y) {
                        let j = choose|j: int| 0 <= j < rs2[x as int]@.len() && rs2[x as int]@[j] == y;
                        if j < rs[x as int]@.len() {
                            assert(rs[x as int]@[j] == y);
                        }
                    }
                    if rs[x as int]@.contains(y) {
                        let j = choose|j: int| 0 <= j < rs[x as int]@.len() && rs[x as int]@[j] == y;
                        assert(rs2[x as int]@[j] == y);
                    }
                    assert(rs2[x as int]@[rs2[x as int]@.len() - 1] == if x == a { b } else { a });
                } else if x < rs.len() {
                    assert(rs2[x as int] == rs[x as int]);
                }
            }
            assert forall|x: int, j: int|
                0 <= x < rs2.len() && 0 <= j < rs2[x].len() implies #[trigger] rs2[x][j] < rs2.len() by {
                let y = rs2[x][j];
                assert(rs2[x]@[j] == y);
                assert(waiting(rs2, x as usize, y));
                if waiting(rs, x as usize, y) {
                    let k = choose|k: int| 0 <= k < rs[x]@.len() && rs[x]@[k] == y;
                    assert(rs[x][k] < rs.len());
                }
            }
        }
        i += 1;
    }

    // 3. take chains out until no edge is left
    let mut chains: Vec<Vec<usize>> = Vec::new();
    proof {
        assert(all_links(chains_view(chains@)) =~= Seq::<(usize, usize)>::empty());
    }
    loop
        invariant
            residual.len() == n,
            residual_ok(residual@, edges@),
            links_ok(residual@, edges@, all_links(chains_view(chains@))),
            forall|ci: int|
                0 <= ci < chains.len() ==> #[trigger] chains[ci]@.len() >= 2
                    && chains[ci]@.no_duplicates(),
        ensures
            forall|x: int| 0 <= x < residual.len() ==> #[trigger] residual[x].len() == 0,
        decreases total(residual@),
    {
        let vertex = match next_non_empty(&residual) {
            Some(v) => v,
            None => break,
        };
        let ghost t0 = total(residual@);
        let ghost done = all_links(chains_view(chains@));
        let mut chain: Vec<usize> = Vec::new();
        chain.push(vertex);
        proof {
            assert(chain_links(chain@) =~= Seq::<(usize, usize)>::empty());
            assert(done + chain_links(chain@) =~= done);
        }
        // search forwards, from the last vertex of the chain
        loop
            invariant
                residual.len() == n,
                residual_ok(residual@, edges@),
                links_ok(residual@, edges@, done + chain_links(chain@)),
                chain@.len() >= 1,
                chain@.no_duplicates(),
                forall|j: int| 0 <= j < chain.len() ==> #[trigger] chain[j] < n,
                chain@.len() == 1 ==> residual[chain[0] as int]@.len() > 0,
                total(residual@) <= t0,
                chain@.len() >= 2 ==> total(residual@) < t0,
            ensures
                chain@.len() >= 2,
            decreases total(residual@),
        {
            let a = match continuation(&residual, chain.last()) {
                Some(a) => a,
                None => break,
            };
            let b = match first_not_in(&residual[a], &chain) {
                Some(b) => b,
                None => {
                    proof {
                        if chain@.len() == 1 {
                            let y = residual[a as int]@[0];
                            assert(residual[a as int]@.contains(y));
                            assert(chain@.contains(y));
                            assert(waiting(residual@, a, a));
                        }
                    }
                    break;
                },
            };
            proof {
                assert(a == chain@.last());
                assert(waiting(residual@, a, b));
                let k = choose|k: int| 0 <= k < residual[a as int]@.len() && residual[a as int]@[k] == b;
                assert(residual[a as int][k] < n);
            }
            let ghost c0 = chain@;
            take_edge(&mut residual, a, b, Ghost(edges@), Ghost(done + chain_links(chain@)));
            chain.push(b);
            proof {
                lemma_chain_links_push(c0, b);
                assert(done + chain_links(chain@) =~= (done + chain_links(c0)).push(norm(a, b)));
                assert(chain@ =~= c0.push(b));
                assert forall|i: int, j: int| 0 <= i < chain@.len() && 0 <= j < chain@.len() && i != j implies chain@[i] != chain@[j] by {
                    if i < c0.len() && j < c0.len() {
                    } else if i < c0.len() {
                        assert(c0.contains(c0[i]));
                    } else {
                        assert(c0.contains(c0[j]));
                    }
                }
            }
        }
        // search backwards, from the first vertex of the chain
        loop
            invariant
                residual.len() == n,
                residual_ok(residual@, edges@),
                links_ok(residual@, edges@, done + chain_links(chain@)),
                chain@.len() >= 2,
                chain@.no_duplicates(),
                forall|j: int| 0 <= j < chain.len() ==> #[trigger] chain[j] < n,
                total(residual@) < t0,
            decreases total(residual@),
        {
            let a = match continuation(&residual, chain.first()) {
                Some(a) => a,
                None => break,
            };
            let b = match first_not_in(&residual[a], &chain) {
                Some(b) => b,
                None => break,
            };
            proof {
                assert(a == chain@[0]);
                assert(waiting(residual@, a, b));
                let k = choose|k: int| 0 <= k < residual[a as int]@.len() && residual[a as int]@[k] == b;
                assert(residual[a as int][k] < n);
            }
            let ghost c0 = chain@;
            take_edge(&mut residual, a, b, Ghost(edges@), Ghost(done + chain_links(chain@)));
            chain.insert(0, b);
            proof {
                assert(chain@ =~= seq![b] + c0);
                lemma_chain_links_prepend(c0, b);
                assert(norm(b, a) == norm(a, b));
                lemma_insert_front(done, chain_links(c0), norm(a, b));
                assert(done + chain_links(chain@) =~= done + (seq![norm(a, b)] + chain_links(c0)));
                lemma_links_same(residual@, edges@, (done + chain_links(c0)).push(norm(a, b)), done + chain_links(chain@));
                assert forall|i: int, j: int| 0 <= i < chain@.len() && 0 <= j < chain@.len() && i != j implies chain@[i] != chain@[j] by {
                    if i > 0 && j > 0 {
                        assert(chain@[i] == c0[i - 1]);
                        assert(chain@[j] == c0[j - 1]);
                    } else if i > 0 {
                        assert(chain@[i] == c0[i - 1]);
                        assert(c0.contains(c0[i - 1]));
                    } else {
                        assert(chain@[j] == c0[j - 1]);
                        assert(c0.contains(c0[j - 1]));
                    }
                }
            }
        }
        let ghost cs0 = chains@;
        chains.push(chain);
        proof {
            lemma_chains_push(cs0, chain);
            assert(chains@ =~= cs0.push(chain));
        }
    }
    proof {
        let l = all_links(chains_view(chains@));
        assert forall|e: (usize, usize)| #[trigger] l.contains(e) <==> is_input_edge(edges@, e) by {
            if l.contains(e) {
                let i = choose|i: int| 0 <= i < l.len() && l[i] == e;
                assert(is_input_edge(edges@, l[i]));
            }
            if is_input_edge(edges@, e) {
                let k = choose|k: int| 0 <= k < edges@.len() && norm(edges@[k].0, edges@[k].1) == e;
                if waiting(residual@, edges@[k].0, edges@[k].1) {
                    assert(residual[edges@[k].0 as int].len() == 0);
                }
            }
        }
    }
    chains
}

} // verus!
