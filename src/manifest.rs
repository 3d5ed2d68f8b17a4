use vstd::prelude::*;

use crate::action_map::{ActionMap, entry_map, pairs_map, lemma_sorted_entries_determined};
use crate::graph::{GraphError, ModuleGraph, ModuleKind, ParseResult, dangling, reachable, traverse};
use crate::matcher::{Pairs, lodable_imports, parse_lodable_imports};

verus! {

/// A script module whose source could not be parsed.
pub struct ParseError {
    /// The module, as an index into the graph.
    pub module: usize,
    /// Its identity.
    pub ident: String,
}

/// Why no manifest could be built.
pub enum ManifestError {
    Graph(GraphError),
    Parse(ParseError),
}

/// What one module yields: `None` when it holds no wrapper call.
pub struct OptionActionMap(pub Option<ActionMap>);

impl OptionActionMap {
    /// No wrapper call found.
    pub fn none() -> (r: OptionActionMap)
        ensures
            r.0 is None,
    {
        OptionActionMap(None)
    }
}

/// One module of the manifest with what it yielded.
pub struct ManifestEntry {
    pub module: usize,
    pub actions: ActionMap,
}

/// The manifest: one entry per reachable module that yielded pairs, in
/// ascending order of module index.
pub struct ModuleActionMap {
    pub entries: Vec<ManifestEntry>,
}

impl ModuleActionMap {
    /// A manifest without entries.
    pub fn empty() -> (r: ModuleActionMap)
        ensures
            r.entries@.len() == 0,
    {
        ModuleActionMap { entries: Vec::new() }
    }
}

/// What extraction gives for module `m`: no pairs for a module that is not a
/// script, an error for a script that could not be parsed, and otherwise what
/// the matcher finds in its program.
pub open spec fn extraction(g: ModuleGraph, m: int) -> Result<Option<Pairs>, ()> {
    match g.modules@[m].kind {
        ModuleKind::Other => Ok(None),
        ModuleKind::Ecmascript(ParseResult::Unparseable) => Err(()),
        ModuleKind::Ecmascript(ParseResult::Parsed(p)) => Ok(lodable_imports(p)),
    }
}

/// `a` is the sorted map of `pairs`.
pub open spec fn holds_pairs(a: ActionMap, pairs: Pairs) -> bool {
    a.wf() && entry_map(a.entries()) == pairs_map(pairs)
}

/// `r` is what extraction owes for the outcome `found`.
pub open spec fn extracts_to(found: Option<Pairs>, r: OptionActionMap) -> bool {
    match (found, r.0) {
        (None, None) => true,
        (Some(pairs), Some(a)) => holds_pairs(a, pairs),
        _ => false,
    }
}

/// Extraction on one module is idempotent: any two results that extraction
/// may give for the same module are equal, entry for entry.
pub proof fn lemma_extraction_idempotent(
    g: ModuleGraph,
    m: int,
    r1: OptionActionMap,
    r2: OptionActionMap,
)
    requires
        0 <= m < g.len(),
        extraction(g, m) is Ok,
        extracts_to(extraction(g, m)->Ok_0, r1),
        extracts_to(extraction(g, m)->Ok_0, r2),
    ensures
        r1.0 is Some <==> r2.0 is Some,
        r1.0 is Some ==> r1.0->Some_0.entries() == r2.0->Some_0.entries(),
{
    if r1.0 is Some {
        lemma_sorted_entries_determined(r1.0->Some_0.entries(), r2.0->Some_0.entries());
    }
}

/// Extracts the sorted pairs of module `module`.
pub fn parse_imports(graph: &ModuleGraph, module: usize) -> (r: Result<OptionActionMap, ParseError>)
    requires
        module < graph.len(),
    ensures
        match (r, extraction(*graph, module as int)) {
            (Ok(o), Ok(found)) => extracts_to(found, o),
            (Err(e), Err(_)) => e.module == module && e.ident@ == graph.modules@[module as int].ident@,
            _ => false,
        },
{
    let info = &graph.modules[module];
    match &info.kind {
        ModuleKind::Other => Ok(OptionActionMap::none()),
        ModuleKind::Ecmascript(ParseResult::Unparseable) => Err(
            ParseError { module, ident: info.ident.clone() },
        ),
        ModuleKind::Ecmascript(ParseResult::Parsed(program)) => {
            match parse_lodable_imports(info.ident.as_str(), program) {
                None => Ok(OptionActionMap::none()),
                Some(pairs) => Ok(OptionActionMap(Some(ActionMap::from_pairs(&pairs)))),
            }
        },
    }
}

/// Extracts module `module` and pairs it with its result, if it yielded one.
pub fn parse_actions_filter_map(graph: &ModuleGraph, module: usize) -> (r: Result<
    Option<ManifestEntry>,
    ParseError,
>)
    requires
        module < graph.len(),
    ensures
        match (r, extraction(*graph, module as int)) {
            (Ok(None), Ok(None)) => true,
            (Ok(Some(e)), Ok(Some(pairs))) => e.module == module && holds_pairs(e.actions, pairs),
            (Err(e), Err(_)) => e.module == module && e.ident@ == graph.modules@[module as int].ident@,
            _ => false,
        },
{
    match parse_imports(graph, module) {
        Err(e) => Err(e),
        Ok(OptionActionMap(None)) => Ok(None),
        Ok(OptionActionMap(Some(actions))) => Ok(Some(ManifestEntry { module, actions })),
    }
}

/// Module `m` is reachable from `entries` and yielded pairs.
pub open spec fn in_manifest(g: ModuleGraph, entries: Seq<usize>, m: int) -> bool {
    0 <= m < g.len() && reachable(g, entries, m) && extraction(g, m) matches Ok(Some(_))
}

/// Module `m` is reachable from `entries` and could not be parsed.
pub open spec fn fails(g: ModuleGraph, entries: Seq<usize>, m: int) -> bool {
    0 <= m < g.len() && reachable(g, entries, m) && extraction(g, m) is Err
}

/// The modules below `n` that belong in the manifest, in ascending order.
pub open spec fn manifest_modules(g: ModuleGraph, entries: Seq<usize>, n: int) -> Seq<int>
    decreases n,
{
    if n <= 0 {
        Seq::empty()
    } else if in_manifest(g, entries, n - 1) {
        manifest_modules(g, entries, n - 1).push(n - 1)
    } else {
        manifest_modules(g, entries, n - 1)
    }
}

/// Builds the manifest of every module reachable from `entry`: one entry per
/// reachable module that yielded pairs, in ascending order of module index.
///
/// Fails when a reachable module holds a reference that names no module,
/// and otherwise with the first (lowest-index) reachable script module that
/// could not be parsed; no manifest is produced then.
pub fn create_react_lodable_manifest(graph: &ModuleGraph, entry: usize) -> (r: Result<
    ModuleActionMap,
    ManifestError,
>)
    requires
        entry < graph.len(),
    ensures
        match r {
            Ok(man) => {
                let mods = manifest_modules(*graph, seq![entry], graph.len());
                &&& forall|x: int| !dangling(*graph, x) || !reachable(*graph, seq![entry], x)
                &&& forall|x: int| !fails(*graph, seq![entry], x)
                &&& man.entries@.len() == mods.len()
                &&& forall|k: int|
                    0 <= k < mods.len() ==> {
                        let e = #[trigger] man.entries@[k];
                        &&& e.module as int == mods[k]
                        &&& holds_pairs(e.actions, extraction(*graph, mods[k])->Ok_0->Some_0)
                    }
            },
            Err(ManifestError::Graph(e)) => {
                &&& reachable(*graph, seq![entry], e.module as int)
                &&& dangling(*graph, e.module as int)
                &&& e.ident@ == graph.modules@[e.module as int].ident@
            },
            Err(ManifestError::Parse(e)) => {
                &&& forall|x: int| !dangling(*graph, x) || !reachable(*graph, seq![entry], x)
                &&& fails(*graph, seq![entry], e.module as int)
                &&& forall|x: int| x < e.module ==> !fails(*graph, seq![entry], x)
                &&& e.ident@ == graph.modules@[e.module as int].ident@
            },
        },
{
    let n = graph.modules.len();
    let entries: Vec<usize> = vec![entry];
    let ghost es = seq![entry];
    assert(entries@ =~= es);
    let reached = match traverse(graph, &entries) {
        Ok(v) => v,
        Err(e) => {
            return Err(ManifestError::Graph(e));
        },
    };
    proof {
        assert forall|x: int| 0 <= x < reached@.len() implies #[trigger] reached@[x] < n by {
            assert(reached@.contains(reached@[x]));
            assert(reachable(*graph, es, reached@[x] as int));
        }
    }
    let mut mask: Vec<bool> = Vec::new();
    let mut i: usize = 0;
    while i < n
        invariant
            i <= n,
            mask@.len() == i,
            forall|j: int| 0 <= j < i ==> !mask@[j],
        decreases n - i,
    {
        mask.push(false);
        i = i + 1;
    }
    let mut k: usize = 0;
    while k < reached.len()
        invariant
            n == graph.len(),
            es == seq![entry],
            entry < n,
            forall|x: int| 0 <= x < reached@.len() ==> #[trigger] reached@[x] < n,
            k <= reached@.len(),
            mask@.len() == n,
            forall|m: usize| reached@.contains(m) <==> reachable(*graph, es, m as int),
            forall|j: int| 0 <= j < n ==> (mask@[j] ==> reachable(*graph, es, j)),
            forall|x: int| 0 <= x < k ==> mask@[#[trigger] reached@[x] as int],
        decreases reached@.len() - k,
    {
        let m = reached[k];
        assert(reached@.contains(m));
        mask.set(m, true);
        k = k + 1;
    }
    proof {
        assert forall|j: int| 0 <= j < n && reachable(*graph, es, j) implies mask@[j] by {
            assert(reached@.contains(j as usize));
            let x = choose|x: int| 0 <= x < reached@.len() && reached@[x] == j as usize;
            assert(mask@[reached@[x] as int]);
        }
    }
    let mut out: Vec<ManifestEntry> = Vec::new();
    let mut i: usize = 0;
    while i < n
        invariant
            n == graph.len(),
            es == seq![entry],
            forall|x: int| !dangling(*graph, x) || !reachable(*graph, es, x),
            i <= n,
            mask@.len() == n,
            forall|j: int| 0 <= j < n ==> (mask@[j] <==> reachable(*graph, es, j)),
            forall|x: int| 0 <= x < i ==> !fails(*graph, es, x),
            out@.len() == manifest_modules(*graph, es, i as int).len(),
            forall|q: int|
                0 <= q < out@.len() ==> {
                    let e = #[trigger] out@[q];
                    &&& e.module as int == manifest_modules(*graph, es, i as int)[q]
                    &&& holds_pairs(
                        e.actions,
                        extraction(*graph, manifest_modules(*graph, es, i as int)[q])->Ok_0->Some_0,
                    )
                },
        decreases n - i,
    {
        if mask[i] {
            match parse_actions_filter_map(graph, i) {
                Err(e) => {
                    assert(fails(*graph, es, i as int));
                    return Err(ManifestError::Parse(e));
                },
                Ok(None) => {},
                Ok(Some(e)) => {
                    out.push(e);
                },
            }
        }
        i = i + 1;
    }
    proof {
        assert forall|x: int| !fails(*graph, es, x) by {
            if 0 <= x < n {
            }
        }
    }
    Ok(ModuleActionMap { entries: out })
}

proof fn lemma_manifest_prefix(g: ModuleGraph, entries: Seq<usize>, n: int)
    requires
        0 <= n,
    ensures
        manifest_modules(g, entries, n).no_duplicates(),
        forall|m: int|
            #[trigger] manifest_modules(g, entries, n).contains(m) <==> (m < n && in_manifest(
                g,
                entries,
                m,
            )),
    decreases n,
{
    if n > 0 {
        lemma_manifest_prefix(g, entries, n - 1);
        let prev = manifest_modules(g, entries, n - 1);
        if in_manifest(g, entries, n - 1) {
            let cur = prev.push(n - 1);
            assert forall|m: int| #[trigger] cur.contains(m) <==> (prev.contains(m) || m == n - 1) by {
                if m == n - 1 {
                    assert(cur[prev.len() as int] == m);
                }
                if prev.contains(m) {
                    let i = choose|i: int| 0 <= i < prev.len() && prev[i] == m;
                    assert(cur[i] == m);
                }
                if cur.contains(m) && m != n - 1 {
                    let i = choose|i: int| 0 <= i < cur.len() && cur[i] == m;
                    assert(prev[i] == m);
                }
            }
            assert forall|i: int, j: int|
                0 <= i < cur.len() && 0 <= j < cur.len() && i != j implies cur[i] != cur[j] by {
                if i < prev.len() && j < prev.len() {
                    assert(prev[i] != prev[j]);
                } else if i < prev.len() {
                    assert(prev.contains(prev[i]));
                } else {
                    assert(prev.contains(prev[j]));
                }
            }
        }
    }
}

/// The manifest leaves out every module that yielded nothing: it lists each
/// reachable module with a present result once, and no other, so its size is
/// the number of those modules.
pub proof fn lemma_manifest_exactly_present(g: ModuleGraph, entries: Seq<usize>)
    ensures
        manifest_modules(g, entries, g.len()).no_duplicates(),
        forall|m: int|
            #[trigger] manifest_modules(g, entries, g.len()).contains(m) <==> in_manifest(g, entries, m),
        manifest_modules(g, entries, g.len()).len() == Set::new(
            |m: int| in_manifest(g, entries, m),
        ).len(),
{
    let mods = manifest_modules(g, entries, g.len());
    lemma_manifest_prefix(g, entries, g.len());
    mods.unique_seq_to_set();
    assert(mods.to_set() =~= Set::new(|m: int| in_manifest(g, entries, m)));
}

} // verus!
