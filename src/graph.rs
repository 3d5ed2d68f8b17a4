use vstd::prelude::*;

use crate::ast::Program;

verus! {

/// What a parser made of a script module's source.
pub enum ParseResult {
    Parsed(Program),
    Unparseable,
}

/// Whether a module carries parseable source.
pub enum ModuleKind {
    /// A script module, with the outcome of its (single) parse.
    Ecmascript(ParseResult),
    /// A static asset, a style sheet, or anything else without script source.
    Other,
}

/// One node of the module graph.
pub struct ModuleInfo {
    /// Stable, unique identity of the module.
    pub ident: String,
    pub kind: ModuleKind,
    /// Outgoing references, as indices into the graph.
    pub references: Vec<usize>,
}

/// A module graph: modules are named by their index in `modules`.
pub struct ModuleGraph {
    pub modules: Vec<ModuleInfo>,
}

impl ModuleGraph {
    pub open spec fn len(&self) -> int {
        self.modules@.len() as int
    }

    /// Module `a` references module `b`.
    pub open spec fn edge(&self, a: int, b: int) -> bool {
        &&& 0 <= a < self.len()
        &&& exists|k: int|
            0 <= k < self.modules@[a].references@.len() && #[trigger] self.modules@[a].references@[k]
                as int == b
    }
}

/// Module `m` holds a reference that names no module of the graph.
pub open spec fn dangling(g: ModuleGraph, m: int) -> bool {
    &&& 0 <= m < g.len()
    &&& exists|k: int|
        0 <= k < g.modules@[m].references@.len() && #[trigger] g.modules@[m].references@[k]
            >= g.len()
}

/// A reachable module whose references could not be resolved.
pub struct GraphError {
    /// The module, as an index into the graph.
    pub module: usize,
    /// Its identity.
    pub ident: String,
}

/// Module `m` is one of `entries`.
pub open spec fn is_entry(entries: Seq<usize>, m: int) -> bool {
    exists|k: int| 0 <= k < entries.len() && entries[k] as int == m
}

/// `path` starts at an entry and follows references from each module to the
/// next.
pub open spec fn is_path(g: ModuleGraph, entries: Seq<usize>, path: Seq<int>) -> bool {
    &&& path.len() > 0
    &&& is_entry(entries, path[0])
    &&& forall|i: int| 0 <= i < path.len() - 1 ==> #[trigger] g.edge(path[i], path[i + 1])
}

/// Module `m` is reachable from `entries` (entries included).
pub open spec fn reachable(g: ModuleGraph, entries: Seq<usize>, m: int) -> bool {
    exists|path: Seq<int>| #[trigger] is_path(g, entries, path) && path.last() == m
}

pub open spec fn count_unvisited(v: Seq<bool>) -> nat
    decreases v.len(),
{
    if v.len() == 0 {
        0
    } else {
        count_unvisited(v.drop_last()) + if v.last() {
            0nat
        } else {
            1nat
        }
    }
}

proof fn lemma_mark_visited(v: Seq<bool>, i: int)
    requires
        0 <= i < v.len(),
        !v[i],
    ensures
        count_unvisited(v.update(i, true)) + 1 == count_unvisited(v),
    decreases v.len(),
{
    let w = v.update(i, true);
    if i == v.len() - 1 {
        assert(w.drop_last() =~= v.drop_last());
    } else {
        assert(w.drop_last() =~= v.drop_last().update(i, true));
        lemma_mark_visited(v.drop_last(), i);
    }
}

proof fn lemma_push_contains(s: Seq<usize>, x: usize)
    ensures
        forall|y: usize| #[trigger] s.push(x).contains(y) <==> (s.contains(y) || y == x),
        s.no_duplicates() && !s.contains(x) ==> s.push(x).no_duplicates(),
{
    let t = s.push(x);
    assert forall|y: usize| #[trigger] t.contains(y) <==> (s.contains(y) || y == x) by {
        if y == x {
            assert(t[s.len() as int] == x);
        }
        if s.contains(y) {
            let i = choose|i: int| 0 <= i < s.len() && s[i] == y;
            assert(t[i] == y);
        }
        if t.contains(y) && y != x {
            let i = choose|i: int| 0 <= i < t.len() && t[i] == y;
            assert(s[i] == y);
        }
    }
}

proof fn lemma_pop_contains(s: Seq<usize>)
    requires
        s.len() > 0,
        s.no_duplicates(),
    ensures
        !s.drop_last().contains(s.last()),
        s.drop_last().no_duplicates(),
        forall|y: usize| #[trigger] s.drop_last().contains(y) ==> s.contains(y),
        forall|y: usize| #[trigger] s.contains(y) ==> s.drop_last().contains(y) || y == s.last(),
        s.contains(s.last()),
{
    assert(s =~= s.drop_last().push(s.last()));
    lemma_push_contains(s.drop_last(), s.last());
    let t = s.drop_last();
    assert(s[s.len() - 1] == s.last());
    assert forall|y: usize| #[trigger] t.contains(y) implies s.contains(y) by {
        let i = choose|i: int| 0 <= i < t.len() && t[i] == y;
        assert(s[i] == y);
    }
    if t.contains(s.last()) {
        let i = choose|i: int| 0 <= i < t.len() && t[i] == s.last();
        assert(s[i] == s[s.len() - 1]);
    }
}

proof fn lemma_reach_step(g: ModuleGraph, entries: Seq<usize>, p: int, q: int)
    requires
        reachable(g, entries, p),
        g.edge(p, q),
    ensures
        reachable(g, entries, q),
{
    let path = choose|path: Seq<int>| #[trigger] is_path(g, entries, path) && path.last() == p;
    let next = path.push(q);
    assert forall|i: int| 0 <= i < next.len() - 1 implies #[trigger] g.edge(next[i], next[i + 1]) by {
        if i < path.len() - 1 {
            assert(g.edge(path[i], path[i + 1]));
        }
    }
    assert(is_path(g, entries, next));
}

proof fn lemma_entry_reachable(g: ModuleGraph, entries: Seq<usize>, k: int)
    requires
        0 <= k < entries.len(),
    ensures
        reachable(g, entries, entries[k] as int),
{
    let path = seq![entries[k] as int];
    assert(is_path(g, entries, path));
}

/// A set of modules that holds the entries and is closed under references
/// holds every module of a path.
proof fn lemma_closed_holds_path(
    g: ModuleGraph,
    entries: Seq<usize>,
    visited: Seq<bool>,
    path: Seq<int>,
)
    requires
        visited.len() == g.len(),
        forall|k: int| 0 <= k < entries.len() ==> visited[#[trigger] entries[k] as int],
        forall|p: int, q: int|
            0 <= p < g.len() && visited[p] && #[trigger] g.edge(p, q) ==> 0 <= q < g.len() && visited[q],
        forall|k: int| 0 <= k < entries.len() ==> #[trigger] entries[k] < g.len(),
        is_path(g, entries, path),
    ensures
        0 <= path.last() < g.len() && visited[path.last()],
    decreases path.len(),
{
    if path.len() == 1 {
        assert(path.last() == path[0]);
        let k = choose|k: int| 0 <= k < entries.len() && entries[k] as int == path[0];
        assert(visited[entries[k] as int]);
        assert(entries[k] < g.len());
    } else {
        let prefix = path.drop_last();
        assert forall|i: int| 0 <= i < prefix.len() - 1 implies #[trigger] g.edge(prefix[i], prefix[i + 1]) by {
            assert(g.edge(path[i], path[i + 1]));
        }
        assert(is_path(g, entries, prefix));
        lemma_closed_holds_path(g, entries, visited, prefix);
        let p = prefix.last();
        let m = path.last();
        let i = path.len() - 2;
        assert(g.edge(path[i], path[i + 1]));
        assert(visited[m]);
    }
}

/// Enumerates every module reachable from `entries`, each exactly once.
///
/// The result holds no module twice, and holds a module if and only if a
/// path of references leads to it from one of the entries. Fails with a
/// reachable module that holds a reference naming no module of the graph.
pub fn traverse(graph: &ModuleGraph, entries: &Vec<usize>) -> (r: Result<Vec<usize>, GraphError>)
    requires
        forall|k: int| 0 <= k < entries@.len() ==> #[trigger] entries@[k] < graph.len(),
    ensures
        match r {
            Ok(v) => {
                &&& v@.no_duplicates()
                &&& forall|m: usize| v@.contains(m) <==> reachable(*graph, entries@, m as int)
                &&& v@.len() == Set::new(|m: usize| reachable(*graph, entries@, m as int)).len()
                &&& forall|m: int|
                    #[trigger] reachable(*graph, entries@, m) ==> 0 <= m < graph.len() && !dangling(
                        *graph,
                        m,
                    )
            },
            Err(e) => {
                &&& reachable(*graph, entries@, e.module as int)
                &&& dangling(*graph, e.module as int)
                &&& e.ident@ == graph.modules@[e.module as int].ident@
            },
        },
{
    let n: usize = graph.modules.len();
    let mut visited: Vec<bool> = Vec::new();
    let mut i: usize = 0;
    while i < n
        invariant
            i <= n,
            visited@.len() == i,
            forall|j: int| 0 <= j < i ==> !visited@[j],
        decreases n - i,
    {
        visited.push(false);
        i = i + 1;
    }
    let mut out: Vec<usize> = Vec::new();
    let mut stack: Vec<usize> = Vec::new();
    let mut e: usize = 0;
    while e < entries.len()
        invariant
            n == graph.len(),
            forall|k: int| 0 <= k < entries@.len() ==> #[trigger] entries@[k] < graph.len(),
            e <= entries@.len(),
            visited@.len() == n,
            out@.no_duplicates(),
            forall|j: int| 0 <= j < n ==> (visited@[j] <==> out@.contains(j as usize)),
            forall|m: usize| out@.contains(m) ==> m < n && reachable(*graph, entries@, m as int),
            stack@ == out@,
            forall|k: int| 0 <= k < e ==> visited@[#[trigger] entries@[k] as int],
        decreases entries@.len() - e,
    {
        let m = entries[e];
        if !visited[m] {
            proof {
                lemma_entry_reachable(*graph, entries@, e as int);
                lemma_push_contains(out@, m);
            }
            visited.set(m, true);
            out.push(m);
            stack.push(m);
        }
        e = e + 1;
    }
    while stack.len() > 0
        invariant
            n == graph.len(),
            forall|k: int| 0 <= k < entries@.len() ==> #[trigger] entries@[k] < graph.len(),
            visited@.len() == n,
            out@.no_duplicates(),
            stack@.no_duplicates(),
            forall|j: int| 0 <= j < n ==> (visited@[j] <==> out@.contains(j as usize)),
            forall|m: usize| out@.contains(m) ==> m < n && reachable(*graph, entries@, m as int),
            forall|m: usize| stack@.contains(m) ==> out@.contains(m),
            forall|k: int| 0 <= k < entries@.len() ==> visited@[#[trigger] entries@[k] as int],
            forall|p: int|
                0 <= p < n && visited@[p] && !stack@.contains(p as usize) ==> !dangling(*graph, p),
            forall|p: int, q: int|
                0 <= p < n && visited@[p] && !stack@.contains(p as usize) && #[trigger] graph.edge(p, q)
                    ==> 0 <= q < n && visited@[q],
        decreases 2 * count_unvisited(visited@) + stack@.len(),
    {
        proof {
            lemma_pop_contains(stack@);
        }
        let p = stack.pop().unwrap();
        let refs = get_referenced_modules(graph, p);
        let ghost measure = 2 * count_unvisited(visited@) + stack@.len();
        let mut k: usize = 0;
        while k < refs.len()
            invariant
                n == graph.len(),
                0 <= p < n,
                refs@ == graph.modules@[p as int].references@,
                k <= refs@.len(),
                forall|k2: int| 0 <= k2 < entries@.len() ==> #[trigger] entries@[k2] < graph.len(),
                2 * count_unvisited(visited@) + stack@.len() <= measure,
                visited@.len() == n,
                visited@[p as int],
                !stack@.contains(p),
                out@.no_duplicates(),
                stack@.no_duplicates(),
                forall|j: int| 0 <= j < n ==> (visited@[j] <==> out@.contains(j as usize)),
                forall|m: usize| out@.contains(m) ==> m < n && reachable(*graph, entries@, m as int),
                forall|m: usize| stack@.contains(m) ==> out@.contains(m),
                forall|k2: int| 0 <= k2 < entries@.len() ==> visited@[#[trigger] entries@[k2] as int],
                forall|p2: int|
                    0 <= p2 < n && p2 != p && visited@[p2] && !stack@.contains(p2 as usize)
                        ==> !dangling(*graph, p2),
                forall|p2: int, q: int|
                    0 <= p2 < n && p2 != p && visited@[p2] && !stack@.contains(p2 as usize)
                        && #[trigger] graph.edge(p2, q) ==> 0 <= q < n && visited@[q],
                forall|k2: int| 0 <= k2 < k ==> #[trigger] refs@[k2] < n && visited@[refs@[k2] as int],
            decreases refs@.len() - k,
        {
            let q = refs[k];
            if q >= n {
                assert(graph.modules@[p as int].references@[k as int] >= graph.len());
                assert(out@.contains(p));
                return Err(GraphError { module: p, ident: graph.modules[p].ident.clone() });
            }
            if !visited[q] {
                proof {
                    assert(graph.modules@[p as int].references@[k as int] as int == q as int);
                    assert(graph.edge(p as int, q as int));
                    lemma_reach_step(*graph, entries@, p as int, q as int);
                    lemma_mark_visited(visited@, q as int);
                    lemma_push_contains(out@, q);
                    lemma_push_contains(stack@, q);
                }
                visited.set(q, true);
                out.push(q);
                stack.push(q);
            }
            k = k + 1;
        }
        proof {
            assert forall|q: int| #[trigger] graph.edge(p as int, q) implies 0 <= q < n && visited@[q] by {
                let k2 = choose|k2: int| 0 <= k2 < refs@.len() && refs@[k2] as int == q;
                assert(refs@[k2] < n);
            }
            if dangling(*graph, p as int) {
                let k2 = choose|k2: int|
                    0 <= k2 < refs@.len() && #[trigger] graph.modules@[p as int].references@[k2] >= graph.len();
                assert(refs@[k2] < n);
            }
        }
    }
    proof {
        assert(stack@.len() == 0);
        assert forall|m: int| reachable(*graph, entries@, m) implies 0 <= m < n && visited@[m] by {
            let path = choose|path: Seq<int>| #[trigger] is_path(*graph, entries@, path) && path.last() == m;
            lemma_closed_holds_path(*graph, entries@, visited@, path);
        }
        assert forall|m: int| #[trigger] reachable(*graph, entries@, m) implies 0 <= m < graph.len()
            && !dangling(*graph, m) by {
            assert(visited@[m]);
            assert(!stack@.contains(m as usize));
        }
        assert forall|m: usize| reachable(*graph, entries@, m as int) implies out@.contains(m) by {
            assert(visited@[m as int]);
        }
        out@.unique_seq_to_set();
        assert(out@.to_set() =~= Set::new(|m: usize| reachable(*graph, entries@, m as int)));
    }
    Ok(out)
}

/// The references of `parent`.
pub fn get_referenced_modules(graph: &ModuleGraph, parent: usize) -> (r: &Vec<usize>)
    requires
        parent < graph.len(),
    ensures
        r@ == graph.modules@[parent as int].references@,
{
    &graph.modules[parent].references
}

} // verus!
