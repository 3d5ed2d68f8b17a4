use vstd::prelude::*;
use vstd::string::StringExecFns;

use crate::ast::{Callee, Node, Program, Prop, PropName};

verus! {

/// Key/value pairs as the matcher finds them, in source order; a later pair
/// with the same key as an earlier one overrides it.
pub type ActionsMap = Vec<(String, String)>;

pub type Pairs = Seq<(Seq<char>, Seq<char>)>;

pub open spec fn pairs_view(v: Seq<(String, String)>) -> Pairs {
    v.map_values(|e: (String, String)| (e.0@, e.1@))
}

/// The reserved key under which the wrapper's options carry generated data.
pub open spec fn generated_key() -> Seq<char> {
    seq!['l', 'o', 'a', 'd', 'a', 'b', 'l', 'e', 'G', 'e', 'n', 'e', 'r', 'a', 't', 'e', 'd']
}

/// Node `j` is a call of `import(...)`.
pub open spec fn is_import_call(p: Program, j: int) -> bool {
    p.has(j) && match p.nodes@[j] {
        Node::Call(Callee::Import, _) => true,
        _ => false,
    }
}

/// Node `j` loads a module dynamically: `import(...)`, or an arrow function
/// returning `import(...)`.
pub open spec fn is_loader(p: Program, j: int) -> bool {
    is_import_call(p, j) || (p.has(j) && match p.nodes@[j] {
        Node::Arrow(b) => is_import_call(p, b as int),
        _ => false,
    })
}

/// `prop` is `loadableGenerated: ...`.
pub open spec fn is_generated_prop(prop: Prop) -> bool {
    match prop {
        Prop::KeyValue(PropName::Ident(name), _) => name@ == generated_key(),
        _ => false,
    }
}

/// Node `a` is an object literal with a `loadableGenerated` property.
pub open spec fn is_options(p: Program, a: int) -> bool {
    p.has(a) && match p.nodes@[a] {
        Node::Object(props) => exists|j: int|
            0 <= j < props@.len() && is_generated_prop(#[trigger] props@[j]),
        _ => false,
    }
}

/// Node `i` is a dynamic-import wrapper call: a call of some function whose
/// first argument loads a module dynamically and one of whose later
/// arguments is an object literal with a `loadableGenerated` property.
pub open spec fn is_wrapper_call(p: Program, i: int) -> bool {
    p.has(i) && match p.nodes@[i] {
        Node::Call(Callee::Expr(_), args) => {
            &&& args@.len() > 0
            &&& is_loader(p, args@[0] as int)
            &&& exists|k: int| 1 <= k < args@.len() && is_options(p, #[trigger] args@[k] as int)
        },
        _ => false,
    }
}

/// The program holds at least one wrapper call.
pub open spec fn has_wrapper_call(p: Program) -> bool {
    exists|i: int| is_wrapper_call(p, i)
}

/// `"` + `s` + `"`.
pub open spec fn quote(s: Seq<char>) -> Seq<char> {
    seq!['"'] + s + seq!['"']
}

/// The string literal held by node `j`, if it is one.
pub open spec fn str_of(p: Program, j: int) -> Option<Seq<char>> {
    if p.has(j) {
        match p.nodes@[j] {
            Node::Str(s) => Some(s@),
            _ => None,
        }
    } else {
        None
    }
}

/// The first `n` elements, each quoted, separated by commas.
pub open spec fn joined(p: Program, elems: Seq<usize>, n: int) -> Seq<char>
    decreases n,
{
    if n <= 0 {
        Seq::empty()
    } else if n == 1 {
        quote(str_of(p, elems[0] as int).unwrap())
    } else {
        joined(p, elems, n - 1) + seq![','] + quote(str_of(p, elems[n - 1] as int).unwrap())
    }
}

/// The text of a value node: a string literal stands for itself, an array of
/// string literals for `["a","b"]`; any other value has no text.
pub open spec fn value_text(p: Program, v: int) -> Option<Seq<char>> {
    if p.has(v) {
        match p.nodes@[v] {
            Node::Str(s) => Some(s@),
            Node::Array(elems) => if forall|k: int|
                0 <= k < elems@.len() ==> (#[trigger] str_of(p, elems@[k] as int)) is Some {
                Some(seq!['['] + joined(p, elems@, elems@.len() as int) + seq![']'])
            } else {
                None
            },
            _ => None,
        }
    } else {
        None
    }
}

pub open spec fn key_text(name: PropName) -> Option<Seq<char>> {
    match name {
        PropName::Ident(s) => Some(s@),
        PropName::Str(s) => Some(s@),
        PropName::Other => None,
    }
}

/// The pair a property of the generated object gives, if any.
pub open spec fn prop_pair(p: Program, prop: Prop) -> Pairs {
    match prop {
        Prop::KeyValue(name, v) => match (key_text(name), value_text(p, v as int)) {
            (Some(k), Some(t)) => seq![(k, t)],
            _ => Seq::empty(),
        },
        Prop::Other => Seq::empty(),
    }
}

/// Pairs of the first `n` properties of the generated object.
pub open spec fn generated_pairs(p: Program, props: Seq<Prop>, n: int) -> Pairs
    decreases n,
{
    if n <= 0 {
        Seq::empty()
    } else {
        generated_pairs(p, props, n - 1) + prop_pair(p, props[n - 1])
    }
}

/// Pairs that one property of an options object gives: those of the object
/// literal under the reserved key, none for any other property.
pub open spec fn option_prop_pairs(p: Program, prop: Prop) -> Pairs {
    match prop {
        Prop::KeyValue(PropName::Ident(name), v) => if name@ == generated_key() && p.has(v as int) {
            match p.nodes@[v as int] {
                Node::Object(props) => generated_pairs(p, props@, props@.len() as int),
                _ => Seq::empty(),
            }
        } else {
            Seq::empty()
        },
        _ => Seq::empty(),
    }
}

pub open spec fn options_props_pairs(p: Program, props: Seq<Prop>, n: int) -> Pairs
    decreases n,
{
    if n <= 0 {
        Seq::empty()
    } else {
        options_props_pairs(p, props, n - 1) + option_prop_pairs(p, props[n - 1])
    }
}

/// Pairs of one argument of a wrapper call (none unless it is an object literal).
pub open spec fn argument_pairs(p: Program, a: int) -> Pairs {
    if p.has(a) {
        match p.nodes@[a] {
            Node::Object(props) => options_props_pairs(p, props@, props@.len() as int),
            _ => Seq::empty(),
        }
    } else {
        Seq::empty()
    }
}

/// Pairs of the arguments that follow the loader, up to argument `n`.
pub open spec fn arguments_pairs(p: Program, args: Seq<usize>, n: int) -> Pairs
    decreases n,
{
    if n <= 1 {
        Seq::empty()
    } else {
        arguments_pairs(p, args, n - 1) + argument_pairs(p, args[n - 1] as int)
    }
}

/// Pairs that node `i` gives: those of its arguments if it is a wrapper call.
pub open spec fn node_pairs(p: Program, i: int) -> Pairs {
    if is_wrapper_call(p, i) {
        match p.nodes@[i] {
            Node::Call(_, args) => arguments_pairs(p, args@, args@.len() as int),
            _ => Seq::empty(),
        }
    } else {
        Seq::empty()
    }
}

/// The number of wrapper calls among the first `n` nodes.
pub open spec fn wrapper_count(p: Program, n: int) -> nat
    decreases n,
{
    if n <= 0 {
        0
    } else {
        wrapper_count(p, n - 1) + if is_wrapper_call(p, n - 1) {
            1nat
        } else {
            0nat
        }
    }
}

pub open spec fn digit_char(d: int) -> char {
    if d == 0 {
        '0'
    } else if d == 1 {
        '1'
    } else if d == 2 {
        '2'
    } else if d == 3 {
        '3'
    } else if d == 4 {
        '4'
    } else if d == 5 {
        '5'
    } else if d == 6 {
        '6'
    } else if d == 7 {
        '7'
    } else if d == 8 {
        '8'
    } else {
        '9'
    }
}

/// The decimal digits of `n`.
pub open spec fn decimal(n: nat) -> Seq<char>
    decreases n,
{
    if n < 10 {
        seq![digit_char(n as int)]
    } else {
        decimal(n / 10).push(digit_char((n % 10) as int))
    }
}

/// The pairs of the wrapper call with ordinal `t` (counted from 0 in node
/// order), each key prefixed with `t` and a colon.
pub open spec fn tagged(pairs: Pairs, t: nat) -> Pairs {
    pairs.map_values(|e: (Seq<char>, Seq<char>)| (decimal(t) + seq![':'] + e.0, e.1))
}

/// Pairs of the first `n` nodes, in node order. Where `several` holds, each
/// wrapper call's keys carry its ordinal, so that calls never override one
/// another.
pub open spec fn program_pairs(p: Program, n: int, several: bool) -> Pairs
    decreases n,
{
    if n <= 0 {
        Seq::empty()
    } else if several {
        program_pairs(p, n - 1, several) + tagged(node_pairs(p, n - 1), wrapper_count(p, n - 1))
    } else {
        program_pairs(p, n - 1, several) + node_pairs(p, n - 1)
    }
}

/// What the matcher finds in a whole program: nothing without a wrapper
/// call; the plain pairs of a single wrapper call; the tagged pairs of all
/// of them where there are several.
pub open spec fn lodable_imports(p: Program) -> Option<Pairs> {
    if has_wrapper_call(p) {
        Some(program_pairs(p, p.len(), wrapper_count(p, p.len()) > 1))
    } else {
        None
    }
}

proof fn lemma_decimal_digits(n: nat)
    ensures
        decimal(n).len() >= 1,
        forall|i: int| 0 <= i < decimal(n).len() ==> #[trigger] decimal(n)[i] != ':',
    decreases n,
{
    if n >= 10 {
        lemma_decimal_digits(n / 10);
    }
}

proof fn lemma_digit_injective(x: int, y: int)
    requires
        0 <= x < 10,
        0 <= y < 10,
        digit_char(x) == digit_char(y),
    ensures
        x == y,
{
}

proof fn lemma_decimal_injective(a: nat, b: nat)
    requires
        decimal(a) == decimal(b),
    ensures
        a == b,
    decreases a,
{
    if a < 10 && b < 10 {
        assert(seq![digit_char(a as int)][0] == digit_char(a as int));
        assert(seq![digit_char(b as int)][0] == digit_char(b as int));
        assert(decimal(a)[0] == decimal(b)[0]);
        lemma_digit_injective(a as int, b as int);
    } else if a < 10 {
        lemma_decimal_digits(b / 10);
        assert(decimal(a).len() == 1);
        assert(decimal(b).len() == decimal(b / 10).len() + 1);
    } else if b < 10 {
        lemma_decimal_digits(a / 10);
        assert(decimal(b).len() == 1);
        assert(decimal(a).len() == decimal(a / 10).len() + 1);
    } else {
        let da = decimal(a);
        let db = decimal(b);
        assert(da.last() == db.last());
        assert(da.drop_last() =~= decimal(a / 10));
        assert(db.drop_last() =~= decimal(b / 10));
        lemma_decimal_injective(a / 10, b / 10);
        lemma_digit_injective((a % 10) as int, (b % 10) as int);
        assert(a == 10 * (a / 10) + a % 10);
        assert(b == 10 * (b / 10) + b % 10);
    }
}

/// Keys that carry the ordinals of two different wrapper calls are never
/// equal: where a program holds several wrapper calls, the pairs of one
/// never override those of another.
pub proof fn lemma_tagged_keys_distinct(t1: nat, t2: nat, k1: Seq<char>, k2: Seq<char>)
    requires
        t1 != t2,
    ensures
        decimal(t1) + seq![':'] + k1 != decimal(t2) + seq![':'] + k2,
{
    let d1 = decimal(t1);
    let d2 = decimal(t2);
    let s1 = d1 + seq![':'] + k1;
    let s2 = d2 + seq![':'] + k2;
    lemma_decimal_digits(t1);
    lemma_decimal_digits(t2);
    if s1 == s2 {
        if d1.len() < d2.len() {
            assert(s1[d1.len() as int] == ':');
            assert(s2[d1.len() as int] == d2[d1.len() as int]);
        } else if d2.len() < d1.len() {
            assert(s2[d2.len() as int] == ':');
            assert(s1[d2.len() as int] == d1[d2.len() as int]);
        } else {
            assert forall|i: int| 0 <= i < d1.len() implies d1[i] == d2[i] by {
                assert(s1[i] == d1[i]);
                assert(s2[i] == d2[i]);
            }
            assert(d1 =~= d2);
            lemma_decimal_injective(t1, t2);
        }
    }
}

proof fn lemma_pairs_view_push(v: Seq<(String, String)>, e: (String, String))
    ensures
        pairs_view(v.push(e)) == pairs_view(v).push((e.0@, e.1@)),
{
    assert(pairs_view(v.push(e)) =~= pairs_view(v).push((e.0@, e.1@)));
}

proof fn lemma_pairs_view_append(v: Seq<(String, String)>, w: Seq<(String, String)>)
    ensures
        pairs_view(v + w) == pairs_view(v) + pairs_view(w),
{
    assert(pairs_view(v + w) =~= pairs_view(v) + pairs_view(w));
}

fn append_all(out: &mut ActionsMap, more: ActionsMap)
    ensures
        pairs_view(final(out)@) == pairs_view(old(out)@) + pairs_view(more@),
{
    let mut more = more;
    proof {
        lemma_pairs_view_append(out@, more@);
    }
    out.append(&mut more);
}

fn is_import_call_exec(p: &Program, j: usize) -> (r: bool)
    ensures
        r == is_import_call(*p, j as int),
{
    if j < p.nodes.len() {
        match &p.nodes[j] {
            Node::Call(Callee::Import, _) => true,
            _ => false,
        }
    } else {
        false
    }
}

fn is_loader_exec(p: &Program, j: usize) -> (r: bool)
    ensures
        r == is_loader(*p, j as int),
{
    if is_import_call_exec(p, j) {
        true
    } else if j < p.nodes.len() {
        match &p.nodes[j] {
            Node::Arrow(b) => is_import_call_exec(p, *b),
            _ => false,
        }
    } else {
        false
    }
}

fn is_generated_prop_exec(prop: &Prop) -> (r: bool)
    ensures
        r == is_generated_prop(*prop),
{
    let key = String::from_str("loadableGenerated");
    proof {
        reveal_strlit("loadableGenerated");
        assert(key@ =~= generated_key());
    }
    match prop {
        Prop::KeyValue(PropName::Ident(name), _) => name.eq(&key),
        _ => false,
    }
}

fn is_options_exec(p: &Program, a: usize) -> (r: bool)
    ensures
        r == is_options(*p, a as int),
{
    if a >= p.nodes.len() {
        return false;
    }
    match &p.nodes[a] {
        Node::Object(props) => {
            let mut j: usize = 0;
            while j < props.len()
                invariant
                    j <= props@.len(),
                    p.has(a as int),
                    p.nodes@[a as int] matches Node::Object(q) && q == *props,
                    forall|j2: int| 0 <= j2 < j ==> !is_generated_prop(#[trigger] props@[j2]),
                decreases props@.len() - j,
            {
                if is_generated_prop_exec(&props[j]) {
                    assert(is_generated_prop(props@[j as int]));
                    assert(exists|j2: int| 0 <= j2 < props@.len() && is_generated_prop(#[trigger] props@[j2]));
                    return true;
                }
                j = j + 1;
            }
            false
        },
        _ => false,
    }
}

fn is_wrapper_call_exec(p: &Program, i: usize) -> (r: bool)
    ensures
        r == is_wrapper_call(*p, i as int),
{
    if i >= p.nodes.len() {
        return false;
    }
    match &p.nodes[i] {
        Node::Call(Callee::Expr(_), args) => {
            if args.len() == 0 || !is_loader_exec(p, args[0]) {
                return false;
            }
            let mut k: usize = 1;
            while k < args.len()
                invariant
                    1 <= k <= args@.len(),
                    p.has(i as int),
                    p.nodes@[i as int] matches Node::Call(Callee::Expr(_), a) && a == *args,
                    is_loader(*p, args@[0] as int),
                    forall|k2: int| 1 <= k2 < k ==> !is_options(*p, #[trigger] args@[k2] as int),
                decreases args@.len() - k,
            {
                if is_options_exec(p, args[k]) {
                    assert(is_options(*p, args@[k as int] as int));
                    assert(exists|k2: int| 1 <= k2 < args@.len() && is_options(*p, #[trigger] args@[k2] as int));
                    return true;
                }
                k = k + 1;
            }
            false
        },
        _ => false,
    }
}

fn array_text_exec(p: &Program, elems: &Vec<usize>) -> (r: Option<String>)
    ensures
        match r {
            Some(t) => (forall|k: int|
                0 <= k < elems@.len() ==> (#[trigger] str_of(*p, elems@[k] as int)) is Some) && t@
                == seq!['['] + joined(*p, elems@, elems@.len() as int) + seq![']'],
            None => !(forall|k: int|
                0 <= k < elems@.len() ==> (#[trigger] str_of(*p, elems@[k] as int)) is Some),
        },
{
    let mut text = String::from_str("[");
    proof {
        reveal_strlit("[");
        assert("["@ =~= seq!['[']);
    }
    let mut k: usize = 0;
    while k < elems.len()
        invariant
            k <= elems@.len(),
            forall|k2: int| 0 <= k2 < k ==> (#[trigger] str_of(*p, elems@[k2] as int)) is Some,
            text@ == seq!['['] + joined(*p, elems@, k as int),
        decreases elems@.len() - k,
    {
        let j = elems[k];
        if j >= p.nodes.len() {
            assert(str_of(*p, elems@[k as int] as int) is None);
            return None;
        }
        match &p.nodes[j] {
            Node::Str(s) => {
                let ghost t0 = text@;
                proof {
                    reveal_strlit(",");
                    reveal_strlit("\"");
                    assert(","@ =~= seq![',']);
                    assert("\""@ =~= seq!['"']);
                }
                if k > 0 {
                    text.append(",");
                }
                text.append("\"");
                text.append(s.as_str());
                text.append("\"");
                assert(str_of(*p, elems@[k as int] as int) == Some(s@));
                if k > 0 {
                    assert(text@ =~= t0 + seq![','] + quote(s@));
                } else {
                    assert(text@ =~= t0 + quote(s@));
                }
                assert(text@ =~= seq!['['] + joined(*p, elems@, k + 1));
            },
            _ => {
                assert(str_of(*p, elems@[k as int] as int) is None);
                return None;
            },
        }
        k = k + 1;
    }
    text.append("]");
    proof {
        reveal_strlit("]");
        assert("]"@ =~= seq![']']);
    }
    Some(text)
}

fn value_text_exec(p: &Program, v: usize) -> (r: Option<String>)
    ensures
        match r {
            Some(t) => value_text(*p, v as int) == Some(t@),
            None => value_text(*p, v as int) is None,
        },
{
    if v >= p.nodes.len() {
        return None;
    }
    match &p.nodes[v] {
        Node::Str(s) => Some(s.clone()),
        Node::Array(elems) => array_text_exec(p, elems),
        _ => None,
    }
}

fn key_text_exec(name: &PropName) -> (r: Option<String>)
    ensures
        match r {
            Some(t) => key_text(*name) == Some(t@),
            None => key_text(*name) is None,
        },
{
    match name {
        PropName::Ident(s) => Some(s.clone()),
        PropName::Str(s) => Some(s.clone()),
        PropName::Other => None,
    }
}

fn generated_pairs_exec(p: &Program, props: &Vec<Prop>) -> (r: ActionsMap)
    ensures
        pairs_view(r@) == generated_pairs(*p, props@, props@.len() as int),
{
    let mut out: ActionsMap = Vec::new();
    let mut k: usize = 0;
    while k < props.len()
        invariant
            k <= props@.len(),
            pairs_view(out@) == generated_pairs(*p, props@, k as int),
        decreases props@.len() - k,
    {
        assert(pairs_view(out@) + prop_pair(*p, props@[k as int]) == generated_pairs(
            *p,
            props@,
            k + 1,
        ));
        match &props[k] {
            Prop::KeyValue(name, v) => {
                match (key_text_exec(name), value_text_exec(p, *v)) {
                    (Some(key), Some(text)) => {
                        proof {
                            lemma_pairs_view_push(out@, (key, text));
                            assert(prop_pair(*p, props@[k as int]) == seq![(key@, text@)]);
                        }
                        out.push((key, text));
                    },
                    _ => {
                        assert(prop_pair(*p, props@[k as int]) =~= Seq::empty());
                        assert(pairs_view(out@) =~= pairs_view(out@) + Seq::<
                            (Seq<char>, Seq<char>),
                        >::empty());
                    },
                }
            },
            Prop::Other => {
                assert(pairs_view(out@) =~= pairs_view(out@) + Seq::<
                    (Seq<char>, Seq<char>),
                >::empty());
            },
        }
        k = k + 1;
    }
    out
}

fn option_prop_pairs_exec(p: &Program, prop: &Prop) -> (r: ActionsMap)
    ensures
        pairs_view(r@) == option_prop_pairs(*p, *prop),
{
    let key = String::from_str("loadableGenerated");
    proof {
        reveal_strlit("loadableGenerated");
        assert(key@ =~= generated_key());
    }
    match prop {
        Prop::KeyValue(PropName::Ident(name), v) => {
            if name.eq(&key) && *v < p.nodes.len() {
                match &p.nodes[*v] {
                    Node::Object(props) => generated_pairs_exec(p, props),
                    _ => {
                        assert(pairs_view(Seq::empty()) =~= Seq::empty());
                        Vec::new()
                    },
                }
            } else {
                assert(pairs_view(Seq::empty()) =~= Seq::empty());
                Vec::new()
            }
        },
        _ => {
            assert(pairs_view(Seq::empty()) =~= Seq::empty());
            Vec::new()
        },
    }
}

fn argument_pairs_exec(p: &Program, a: usize) -> (r: ActionsMap)
    ensures
        pairs_view(r@) == argument_pairs(*p, a as int),
{
    let mut out: ActionsMap = Vec::new();
    assert(pairs_view(out@) =~= Seq::empty());
    if a >= p.nodes.len() {
        return out;
    }
    match &p.nodes[a] {
        Node::Object(props) => {
            let mut k: usize = 0;
            while k < props.len()
                invariant
                    k <= props@.len(),
                    pairs_view(out@) == options_props_pairs(*p, props@, k as int),
                decreases props@.len() - k,
            {
                let more = option_prop_pairs_exec(p, &props[k]);
                append_all(&mut out, more);
                k = k + 1;
            }
            out
        },
        _ => out,
    }
}

fn node_pairs_exec(p: &Program, i: usize) -> (r: ActionsMap)
    requires
        i < p.len(),
    ensures
        pairs_view(r@) == node_pairs(*p, i as int),
{
    let mut out: ActionsMap = Vec::new();
    assert(pairs_view(out@) =~= Seq::empty());
    if !is_wrapper_call_exec(p, i) {
        return out;
    }
    match &p.nodes[i] {
        Node::Call(_, args) => {
            let mut k: usize = 1;
            while k < args.len()
                invariant
                    1 <= k,
                    k <= args@.len() || args@.len() == 0,
                    pairs_view(out@) == arguments_pairs(*p, args@, k as int),
                decreases args@.len() - k,
            {
                let more = argument_pairs_exec(p, args[k]);
                append_all(&mut out, more);
                k = k + 1;
            }
            assert(args@.len() <= 1 ==> arguments_pairs(*p, args@, args@.len() as int) =~= Seq::empty());
            out
        },
        _ => out,
    }
}

fn digit_text(d: usize) -> (r: &'static str)
    requires
        d < 10,
    ensures
        r@ == seq![digit_char(d as int)],
{
    proof {
        reveal_strlit("0");
        reveal_strlit("1");
        reveal_strlit("2");
        reveal_strlit("3");
        reveal_strlit("4");
        reveal_strlit("5");
        reveal_strlit("6");
        reveal_strlit("7");
        reveal_strlit("8");
        reveal_strlit("9");
        assert("0"@ =~= seq!['0']);
        assert("1"@ =~= seq!['1']);
        assert("2"@ =~= seq!['2']);
        assert("3"@ =~= seq!['3']);
        assert("4"@ =~= seq!['4']);
        assert("5"@ =~= seq!['5']);
        assert("6"@ =~= seq!['6']);
        assert("7"@ =~= seq!['7']);
        assert("8"@ =~= seq!['8']);
        assert("9"@ =~= seq!['9']);
    }
    if d == 0 {
        "0"
    } else if d == 1 {
        "1"
    } else if d == 2 {
        "2"
    } else if d == 3 {
        "3"
    } else if d == 4 {
        "4"
    } else if d == 5 {
        "5"
    } else if d == 6 {
        "6"
    } else if d == 7 {
        "7"
    } else if d == 8 {
        "8"
    } else {
        "9"
    }
}

fn decimal_text(n: usize) -> (r: String)
    ensures
        r@ == decimal(n as nat),
    decreases n,
{
    if n < 10 {
        String::from_str(digit_text(n))
    } else {
        let mut s = decimal_text(n / 10);
        s.append(digit_text(n % 10));
        s
    }
}

fn tag_pairs(pairs: &ActionsMap, t: usize) -> (r: ActionsMap)
    ensures
        pairs_view(r@) == tagged(pairs_view(pairs@), t as nat),
{
    let mut out: ActionsMap = Vec::new();
    let ghost pv = pairs_view(pairs@);
    let mut k: usize = 0;
    while k < pairs.len()
        invariant
            k <= pairs@.len(),
            pv == pairs_view(pairs@),
            pairs_view(out@) =~= tagged(pv, t as nat).take(k as int),
        decreases pairs@.len() - k,
    {
        let mut key = decimal_text(t);
        key.append(":");
        key.append(pairs[k].0.as_str());
        proof {
            reveal_strlit(":");
            assert(":"@ =~= seq![':']);
            lemma_pairs_view_push(out@, (key, pairs@[k as int].1));
        }
        assert(key@ =~= decimal(t as nat) + seq![':'] + pairs@[k as int].0@);
        out.push((key, pairs[k].1.clone()));
        assert(tagged(pv, t as nat).take(k + 1) =~= tagged(pv, t as nat).take(k as int).push(
            tagged(pv, t as nat)[k as int],
        ));
        k = k + 1;
    }
    assert(tagged(pv, t as nat).take(pairs@.len() as int) =~= tagged(pv, t as nat));
    out
}

/// Finds every dynamic-import wrapper call of a program and the key/value
/// pairs of the object literal under `loadableGenerated` in its options.
///
/// Returns `None` when the program holds no wrapper call. With one wrapper
/// call it returns that call's pairs; with several, the pairs of all of them
/// in node order, each key prefixed with the ordinal of its call (`0:`,
/// `1:`, ...) so that no call's pairs override another's. Properties keep
/// their source order; those whose key or value has no text are skipped.
/// `id` is the module's identity; the result does not depend on it.
pub fn parse_lodable_imports(id: &str, program: &Program) -> (r: Option<ActionsMap>)
    ensures
        match r {
            Some(v) => lodable_imports(*program) == Some(pairs_view(v@)),
            None => lodable_imports(*program) is None,
        },
{
    let mut total: usize = 0;
    let mut i: usize = 0;
    while i < program.nodes.len()
        invariant
            i <= program.len(),
            total == wrapper_count(*program, i as int),
            total <= i,
            total > 0 <==> exists|j: int| 0 <= j < i && is_wrapper_call(*program, j),
        decreases program.len() - i,
    {
        if is_wrapper_call_exec(program, i) {
            total = total + 1;
        }
        i = i + 1;
    }
    if total == 0 {
        return None;
    }
    let several = total > 1;
    let mut out: ActionsMap = Vec::new();
    let mut seen: usize = 0;
    assert(pairs_view(out@) =~= Seq::empty());
    let mut i: usize = 0;
    while i < program.nodes.len()
        invariant
            i <= program.len(),
            seen == wrapper_count(*program, i as int),
            seen <= i,
            several == (wrapper_count(*program, program.len()) > 1),
            pairs_view(out@) == program_pairs(*program, i as int, several),
        decreases program.len() - i,
    {
        let wrapper = is_wrapper_call_exec(program, i);
        let more = node_pairs_exec(program, i);
        if several {
            let tagged_more = tag_pairs(&more, seen);
            append_all(&mut out, tagged_more);
        } else {
            append_all(&mut out, more);
        }
        if wrapper {
            seen = seen + 1;
        }
        i = i + 1;
    }
    Some(out)
}

} // verus!
