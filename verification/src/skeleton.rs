//! Skeleton datafrog computations generated from datalog rules: the relations and variables
//! of the computation, the indices used by its joins and their maintenance, and the
//! operations of each rule: `map`, `join` and `antijoin`.
//!
//! Relation declarations are read one per line, in the style of Soufflé's:
//! `.decl relation(Arg: Type, ...)`. They give each relation its canonical argument names and
//! types, which name the indices and type the generated relations.

use vstd::prelude::*;
use std::collections::HashMap;
use std::hash::BuildHasherDefault;
use rustc_hash::{FxHashMap, FxHasher};
use crate::datalog::{
    literals_view, Literal,
    clean, clean_program, comma_space, lemma_index_from, lemma_nonempty_trimmed_prefix, nonempty_trimmed,
    parse, parseable, rule_text, rules_of, rules_view, AtomV, LiteralV, Rule, RuleV,
};
use crate::ir::strs_view;
use crate::lexer::{byte_offset, utf8_len, utf8_len_of};
use crate::text::{
    char_seqs, chars_of, decimal, find_char, index_of, join, push_chars, push_decimal, push_joined,
    push_str, slice, split, split_chars, string_of, string_push, trim, trim_chars,
};

verus! {

// ---------------------------------------------------------------------------------------------
// Outside calls.

#[verifier::external_type_specification]
#[verifier::external_body]
pub struct ExFxHasher(FxHasher);

#[verifier::external_type_specification]
#[verifier::external_body]
#[verifier::reject_recursive_types(H)]
pub struct ExBuildHasherDefault<H>(BuildHasherDefault<H>);

/// The names held by an `FxHashMap` of names.
pub uninterp spec fn fx_names(m: HashMap<String, (), BuildHasherDefault<FxHasher>>) -> Set<Seq<char>>;

/// What `str::to_lowercase` gives for the characters `s`.
pub uninterp spec fn lowercase_of(s: Seq<char>) -> Seq<char>;

/// What `str::to_uppercase` gives for the characters `s`.
pub uninterp spec fn uppercase_of(s: Seq<char>) -> Seq<char>;

/// What the `Debug` form of a `str` (`format!("{:?}", s)`) gives for the characters `s`.
pub uninterp spec fn debug_str_of(s: Seq<char>) -> Seq<char>;

/// `FxHashMap::default`: a map that holds no name.
#[verifier::external_body]
fn fx_empty() -> (m: FxHashMap<String, ()>)
    ensures
        fx_names(m) == Set::<Seq<char>>::empty(),
{
    FxHashMap::default()
}

/// `HashMap::insert`: the map holds the names it held and `k`.
#[verifier::external_body]
fn fx_insert(m: &mut FxHashMap<String, ()>, k: &Vec<char>)
    ensures
        fx_names(*final(m)) == fx_names(*old(m)).insert(k@),
{
    m.insert(k.iter().collect(), ());
}

/// `HashMap::keys`: each name of the map once, in the order in which the map is walked. That
/// order is left open: it depends on the hashes of the names and on the map's history.
#[verifier::external_body]
fn fx_names_in_order(m: &FxHashMap<String, ()>) -> (r: Vec<Vec<char>>)
    ensures
        char_seqs(r@).no_duplicates(),
        char_seqs(r@).to_set() == fx_names(*m),
{
    m.keys().map(|k| k.chars().collect()).collect()
}

/// `str::to_lowercase` (Unicode lower case; its tables are not restated here).
#[verifier::external_body]
fn lowercase(s: &Vec<char>) -> (r: Vec<char>)
    ensures
        r@ == lowercase_of(s@),
{
    let t: String = s.iter().collect();
    t.to_lowercase().chars().collect()
}

/// `str::to_uppercase` (Unicode upper case; its tables are not restated here).
#[verifier::external_body]
fn uppercase(s: &Vec<char>) -> (r: Vec<char>)
    ensures
        r@ == uppercase_of(s@),
{
    let t: String = s.iter().collect();
    t.to_uppercase().chars().collect()
}

/// The `Debug` form of a `str`: quoted, with its escapes (not restated here).
#[verifier::external_body]
fn debug_str(s: &Vec<char>) -> (r: Vec<char>)
    ensures
        r@ == debug_str_of(s@),
{
    let t: String = s.iter().collect();
    format!("{:?}", t).chars().collect()
}

// ---------------------------------------------------------------------------------------------
// Sequences of names used as sets and as the keys of maps.

/// `s` with `x` added, where it does not hold it yet.
pub open spec fn sins(s: Seq<Seq<char>>, x: Seq<char>) -> Seq<Seq<char>> {
    if s.contains(x) { s } else { s.push(x) }
}

/// The first index at or after `i` where `x` stands in `s`.
pub open spec fn first_from(s: Seq<Seq<char>>, x: Seq<char>, i: int) -> Option<int>
    decreases s.len() - i,
{
    if i < 0 || i >= s.len() {
        None
    } else if s[i] == x {
        Some(i)
    } else {
        first_from(s, x, i + 1)
    }
}

/// The first index where `x` stands in `s`.
pub open spec fn first_at(s: Seq<Seq<char>>, x: Seq<char>) -> Option<int> {
    first_from(s, x, 0)
}

/// The values of a map whose keys are `keys`, once `k` maps to `v`.
pub open spec fn kv_vals<V>(keys: Seq<Seq<char>>, vals: Seq<V>, k: Seq<char>, v: V) -> Seq<V> {
    match first_at(keys, k) {
        Some(i) => vals.update(i, v),
        None => vals.push(v),
    }
}

/// The value that `k` maps to.
pub open spec fn kv_get<V>(keys: Seq<Seq<char>>, vals: Seq<V>, k: Seq<char>) -> Option<V> {
    match first_at(keys, k) {
        Some(i) => Some(vals[i]),
        None => None,
    }
}

/// The pieces of `s`, end to end.
pub open spec fn concat(s: Seq<Seq<char>>) -> Seq<char>
    decreases s.len(),
{
    if s.len() == 0 { seq![] } else { concat(s.drop_last()) + s.last() }
}

/// The decimal form of `n`, on at least two digits (`{:02}`).
pub open spec fn dec2(n: nat) -> Seq<char> {
    if n < 10 { seq!['0'] + decimal(n) } else { decimal(n) }
}

/// Whether `a` comes before `b`, comparing their characters in order.
pub open spec fn str_lt(a: Seq<char>, b: Seq<char>) -> bool
    decreases a.len(),
{
    if a.len() == 0 {
        b.len() > 0
    } else if b.len() == 0 {
        false
    } else if a[0] != b[0] {
        (a[0] as u32) < (b[0] as u32)
    } else {
        str_lt(a.drop_first(), b.drop_first())
    }
}

/// `x` put into the sorted `s`, before the first name that comes after it.
pub open spec fn insert_sorted(s: Seq<Seq<char>>, x: Seq<char>) -> Seq<Seq<char>>
    decreases s.len(),
{
    if s.len() == 0 {
        seq![x]
    } else if str_lt(x, s[0]) {
        seq![x] + s
    } else {
        seq![s[0]] + insert_sorted(s.drop_first(), x)
    }
}

/// The names of `s`, sorted.
pub open spec fn sort_strs(s: Seq<Seq<char>>) -> Seq<Seq<char>>
    decreases s.len(),
{
    if s.len() == 0 { seq![] } else { insert_sorted(sort_strs(s.drop_last()), s.last()) }
}

/// The names of `s` that `t` does not hold.
pub open spec fn not_in(s: Seq<Seq<char>>, t: Seq<Seq<char>>) -> Seq<Seq<char>>
    decreases s.len(),
{
    if s.len() == 0 {
        seq![]
    } else if t.contains(s.last()) {
        not_in(s.drop_last(), t)
    } else {
        not_in(s.drop_last(), t).push(s.last())
    }
}

// ---------------------------------------------------------------------------------------------
// Relation declarations.

/// Relation declarations, by name: for each, the name and the type of each argument.
pub struct DeclsV {
    pub preds: Seq<Seq<char>>,
    pub args: Seq<Seq<(Seq<char>, Seq<char>)>>,
}

/// The arguments declared for the relation `p`.
pub open spec fn decl_lookup(d: DeclsV, p: Seq<char>) -> Option<Seq<(Seq<char>, Seq<char>)>> {
    kv_get(d.preds, d.args, p)
}

/// The declarations once `p` is declared with the arguments `a`, in place of any earlier
/// declaration of `p`.
pub open spec fn decl_insert(d: DeclsV, p: Seq<char>, a: Seq<(Seq<char>, Seq<char>)>) -> DeclsV {
    DeclsV { preds: sins(d.preds, p), args: kv_vals(d.preds, d.args, p, a) }
}

/// The character index at which the first `n` bytes of the UTF-8 form of `cs` end, searched
/// from `k` on, where they end between two characters.
pub open spec fn char_at_byte(cs: Seq<char>, n: int, k: int) -> Option<int>
    decreases cs.len() - k,
{
    if k < 0 || k > cs.len() || byte_offset(cs, k) > n {
        None
    } else if byte_offset(cs, k) == n {
        Some(k)
    } else if k == cs.len() {
        None
    } else {
        char_at_byte(cs, n, k + 1)
    }
}

/// A declaration line after its first six bytes (`".decl "`).
pub open spec fn decl_rest(line: Seq<char>) -> Seq<char> {
    line.skip(char_at_byte(line, 6, 0)->0)
}

/// The relation that a declaration line declares: what comes before its first `(`.
pub open spec fn decl_pred(line: Seq<char>) -> Seq<char> {
    let r = decl_rest(line);
    r.take(index_of(r, '(')->0)
}

/// The text between the first `(` of a declaration line and the first `)` after it.
pub open spec fn decl_args_text(line: Seq<char>) -> Seq<char> {
    let r = decl_rest(line);
    let a = r.skip(index_of(r, '(')->0);
    a.subrange(1, index_of(a, ')')->0)
}

/// The pieces of that text between its commas.
pub open spec fn decl_arg_pieces(line: Seq<char>) -> Seq<Seq<char>> {
    split(decl_args_text(line), seq![','])
}

/// The argument declared by a piece `Name: Type`: its name, lower-cased, and its type,
/// trimmed.
pub open spec fn arg_decl_of(piece: Seq<char>) -> (Seq<char>, Seq<char>) {
    let parts = split(trim(piece), seq![':']);
    (lowercase_of(parts[0]), trim(parts[1]))
}

/// The arguments declared by a declaration line.
pub open spec fn decl_args(line: Seq<char>) -> Seq<(Seq<char>, Seq<char>)> {
    decl_arg_pieces(line).map_values(|p: Seq<char>| arg_decl_of(p))
}

/// Whether a declaration line can be read: its first six bytes end between two characters,
/// it has a `(` after them and a `)` after that, and each argument has a `:`.
pub open spec fn decl_line_ok(line: Seq<char>) -> bool {
    &&& char_at_byte(line, 6, 0) is Some
    &&& index_of(decl_rest(line), '(') is Some
    &&& index_of(decl_rest(line).skip(index_of(decl_rest(line), '(')->0), ')') is Some
    &&& forall|k: int|
        0 <= k < decl_arg_pieces(line).len() ==> split(trim(#[trigger] decl_arg_pieces(line)[k]), seq![':']).len()
            >= 2
}

/// The declaration lines of a text: its lines, trimmed, the empty ones left out.
pub open spec fn decl_lines(text: Seq<char>) -> Seq<Seq<char>> {
    nonempty_trimmed(split(text, seq!['\n']))
}

/// The declarations made by the lines `lines`, a later one in place of an earlier one of the
/// same relation.
pub open spec fn decls_from(lines: Seq<Seq<char>>) -> DeclsV
    decreases lines.len(),
{
    if lines.len() == 0 {
        DeclsV { preds: seq![], args: seq![] }
    } else {
        decl_insert(decls_from(lines.drop_last()), decl_pred(lines.last()), decl_args(lines.last()))
    }
}

/// The declarations of a text.
pub open spec fn decls_of(text: Seq<char>) -> DeclsV {
    decls_from(decl_lines(text))
}

/// Whether each declaration line of a text can be read.
pub open spec fn decls_ok(text: Seq<char>) -> bool {
    forall|k: int| 0 <= k < decl_lines(text).len() ==> decl_line_ok(#[trigger] decl_lines(text)[k])
}

/// The declared argument that stands where `var` first stands in `args`, the arguments of a
/// use of the relation `pred`.
pub open spec fn find_arg_decl(d: DeclsV, pred: Seq<char>, args: Seq<Seq<char>>, var: Seq<char>) -> Option<
    (Seq<char>, Seq<char>),
> {
    match (first_at(args, var), decl_lookup(d, pred)) {
        (Some(i), Some(ad)) => if i < ad.len() { Some(ad[i]) } else { None },
        _ => None,
    }
}

/// The canonical names of the key `key`, end to end.
pub open spec fn index_suffix(d: DeclsV, pred: Seq<char>, args: Seq<Seq<char>>, key: Seq<Seq<char>>) -> Seq<char>
    decreases key.len(),
{
    if key.len() == 0 {
        seq![]
    } else {
        index_suffix(d, pred, args, key.drop_last()) + (find_arg_decl(d, pred, args, key.last())->0).0
    }
}

/// The name of the index of `pred` on the key `key`: `pred_` and the key's canonical names.
pub open spec fn index_name(d: DeclsV, pred: Seq<char>, args: Seq<Seq<char>>, key: Seq<Seq<char>>) -> Seq<char> {
    pred + seq!['_'] + index_suffix(d, pred, args, key)
}

/// Whether each name of the key has a declared argument.
pub open spec fn index_name_ok(d: DeclsV, pred: Seq<char>, args: Seq<Seq<char>>, key: Seq<Seq<char>>) -> bool {
    forall|j: int| 0 <= j < key.len() ==> find_arg_decl(d, pred, args, #[trigger] key[j]) is Some
}

// ---------------------------------------------------------------------------------------------
// Tuples of Rust names and types.

/// The Rust name of the datalog argument `arg`: lower-cased, after a `_` where neither the key
/// `uk` nor the arguments `ua` use it.
pub open spec fn name_arg(arg: Seq<char>, uk: Seq<Seq<char>>, ua: Seq<Seq<char>>) -> Seq<char> {
    if uk.contains(arg) || uk.contains(uppercase_of(arg)) || ua.contains(arg) || ua.contains(uppercase_of(arg)) {
        lowercase_of(arg)
    } else {
        seq!['_'] + lowercase_of(arg)
    }
}

/// The Rust names of `vars`, as a tuple, or alone where there is one.
pub open spec fn args_tuple(vars: Seq<Seq<char>>, uk: Seq<Seq<char>>, ua: Seq<Seq<char>>) -> Seq<char> {
    if vars.len() == 1 {
        name_arg(vars[0], uk, ua)
    } else {
        seq!['('] + join(vars.map_values(|a: Seq<char>| name_arg(a, uk, ua)), comma_space()) + seq![')']
    }
}

/// The types `ts` as a tuple, or alone where there is one.
pub open spec fn types_tuple(ts: Seq<Seq<char>>) -> Seq<char> {
    if ts.len() == 1 { ts[0] } else { seq!['('] + join(ts, comma_space()) + seq![')'] }
}

/// The types of a key and of the arguments it leads to.
pub open spec fn join_types(kt: Seq<Seq<char>>, at: Seq<Seq<char>>) -> Seq<char> {
    types_tuple(kt) + comma_space() + types_tuple(at)
}

/// The types of the declared arguments whose names, upper-cased, `names` holds.
pub open spec fn types_named_in(ad: Seq<(Seq<char>, Seq<char>)>, names: Seq<Seq<char>>) -> Seq<Seq<char>>
    decreases ad.len(),
{
    if ad.len() == 0 {
        seq![]
    } else if names.contains(uppercase_of(ad.last().0)) {
        types_named_in(ad.drop_last(), names).push(ad.last().1)
    } else {
        types_named_in(ad.drop_last(), names)
    }
}

/// The declared types of the arguments `vars` of a use of `pred` with the arguments `args`.
pub open spec fn canon_types(d: DeclsV, pred: Seq<char>, args: Seq<Seq<char>>, vars: Seq<Seq<char>>) -> Seq<Seq<char>> {
    vars.map_values(|v: Seq<char>| (find_arg_decl(d, pred, args, v)->0).1)
}

// ---------------------------------------------------------------------------------------------
// The query plan.

/// The key of a join: the arguments of `b` that `a` holds too, in the order of `b`.
pub open spec fn shared_args(b: Seq<Seq<char>>, a: Seq<Seq<char>>) -> Seq<Seq<char>>
    decreases b.len(),
{
    if b.len() == 0 {
        seq![]
    } else if a.contains(b.last()) {
        shared_args(b.drop_last(), a).push(b.last())
    } else {
        shared_args(b.drop_last(), a)
    }
}

/// Whether `arg` is used by a literal of the body from `skip` on, or by the head.
pub open spec fn used_later(arg: Seq<char>, body: Seq<LiteralV>, head_args: Seq<Seq<char>>, skip: int) -> bool {
    (exists|j: int| skip <= j < body.len() && #[trigger] body[j].atom.args.contains(arg)) || head_args.contains(arg)
}

/// The arguments of `a` outside the key that are still used later.
pub open spec fn remaining_args(
    a: Seq<Seq<char>>,
    key: Seq<Seq<char>>,
    body: Seq<LiteralV>,
    head_args: Seq<Seq<char>>,
    skip: int,
) -> Seq<Seq<char>>
    decreases a.len(),
{
    if a.len() == 0 {
        seq![]
    } else if !key.contains(a.last()) && used_later(a.last(), body, head_args, skip) {
        remaining_args(a.drop_last(), key, body, head_args, skip).push(a.last())
    } else {
        remaining_args(a.drop_last(), key, body, head_args, skip)
    }
}

/// An index of an intensional relation: the relation, the arguments of the literal that uses
/// it, the key, and the arguments that the key leads to.
pub struct IndexV {
    pub pred: Seq<char>,
    pub lit_args: Seq<Seq<char>>,
    pub key: Seq<Seq<char>>,
    pub args: Seq<Seq<char>>,
}

/// One step of a join: it joins `src_a` and `src_b` on `key` into `dest`.
pub struct JoinStepV {
    pub src_a: Seq<char>,
    pub src_b: Seq<char>,
    pub is_antijoin: bool,
    pub key: Seq<Seq<char>>,
    pub args: Seq<Seq<char>>,
    pub rem_a: Seq<Seq<char>>,
    pub rem_b: Seq<Seq<char>>,
    pub dest: Seq<char>,
    pub dest_key: Seq<Seq<char>>,
    pub dest_args: Seq<Seq<char>>,
}

/// What a rule does in datafrog terms.
pub enum OperationV {
    StaticMap(Seq<char>),
    DynamicMap(Seq<char>),
    Join(Seq<JoinStepV>),
}

/// What the plan knows of the relations: the intensional and extensional predicates, those
/// used as inputs, the indices of each kind, the relations consumed as keys, and whether each
/// lookup so far found what it looked for.
pub struct PlanV {
    pub intens: Seq<Seq<char>>,
    pub extens: Seq<Seq<char>>,
    pub ext_inputs: Seq<Seq<char>>,
    pub int_inputs: Seq<Seq<char>>,
    pub ext_keys: Seq<Seq<char>>,
    pub ext_vals: Seq<(Seq<char>, Seq<char>)>,
    pub int_keys: Seq<Seq<char>>,
    pub int_vals: Seq<IndexV>,
    pub consumed: Seq<Seq<char>>,
    pub ok: bool,
}

/// The relation that reads the literal `lit` through an index on `key`, and the plan once
/// that index is recorded.
pub open spec fn gen_index(
    d: DeclsV,
    lit: LiteralV,
    key: Seq<Seq<char>>,
    args: Seq<Seq<char>>,
    rem: Seq<Seq<char>>,
    st: PlanV,
) -> (Seq<char>, PlanV) {
    let p = lit.atom.predicate;
    let name = index_name(d, p, args, key);
    let ok = st.ok && index_name_ok(d, p, args, key);
    if st.extens.contains(p) {
        let ad = decl_lookup(d, p);
        let types = join_types(types_named_in(ad->0, key), types_named_in(ad->0, rem));
        (name, PlanV {
            extens: sins(st.extens, name),
            ext_keys: sins(st.ext_keys, name),
            ext_vals: kv_vals(st.ext_keys, st.ext_vals, name, (p, types)),
            ok: ok && ad is Some,
            ..st
        })
    } else {
        (name, PlanV {
            intens: sins(st.intens, name),
            int_inputs: sins(st.int_inputs, p),
            int_keys: sins(st.int_keys, name),
            int_vals: kv_vals(st.int_keys, st.int_vals, name, IndexV { pred: p, lit_args: lit.atom.args, key, args: rem }),
            ok,
            ..st
        })
    }
}

/// The relation that the step at literal `t` of rule `ri` produces.
pub open spec fn step_dest(r: RuleV, ri: int, t: int) -> Seq<char> {
    if t == r.body.len() - 1 {
        r.head.predicate
    } else {
        r.head.predicate + "_step_"@ + decimal((ri + 1) as nat) + seq!['_'] + decimal(t as nat)
    }
}

/// The join step at literal `t` of rule `ri`, after the steps `steps`.
pub open spec fn join_step(d: DeclsV, r: RuleV, ri: int, st: PlanV, steps: Seq<JoinStepV>, t: int) -> (PlanV, Seq<JoinStepV>) {
    let body = r.body;
    let first = t == 1;
    let dest = step_dest(r, ri, t);
    let st1 = PlanV { intens: sins(st.intens, dest), ..st };
    let prev = steps.last();
    let args_a = if first { body[0].atom.args } else { prev.key + prev.args };
    let args_b = body[t].atom.args;
    let key = shared_args(args_b, args_a);
    let rem_a = remaining_args(args_a, key, body, r.head.args, t);
    let rem_b = remaining_args(args_b, key, body, r.head.args, t);
    let a = if !first {
        (prev.dest, st1)
    } else if rem_a.len() == 0 {
        (body[0].atom.predicate, st1)
    } else {
        gen_index(d, body[0], key, args_a, rem_a, st1)
    };
    let b = if rem_b.len() == 0 { (body[t].atom.predicate, a.1) } else { gen_index(d, body[t], key, args_b, rem_b, a.1) };
    let st3 = b.1;
    let anti = body[t].is_negated;
    let c1 = if !anti && rem_a.len() == 0 { sins(st3.consumed, a.0) } else { st3.consumed };
    let c2 = if !anti && rem_b.len() == 0 { sins(c1, b.0) } else { c1 };
    let patched = if first { steps } else { steps.update(steps.len() - 1, JoinStepV { dest_key: key, dest_args: rem_a, ..prev }) };
    let step = JoinStepV {
        src_a: a.0,
        src_b: b.0,
        is_antijoin: anti,
        key,
        args: rem_a + rem_b,
        rem_a,
        rem_b,
        dest,
        dest_key: seq![],
        dest_args: if t == body.len() - 1 { r.head.args } else { seq![] },
    };
    (PlanV { consumed: c2, ..st3 }, patched.push(step))
}

/// The first `k` join steps of rule `ri`.
pub open spec fn join_steps(d: DeclsV, r: RuleV, ri: int, st: PlanV, k: int) -> (PlanV, Seq<JoinStepV>)
    decreases k,
{
    if k <= 0 {
        (st, seq![])
    } else {
        let prev = join_steps(d, r, ri, st, k - 1);
        join_step(d, r, ri, prev.0, prev.1, k)
    }
}

/// The Rust name of an argument of a `map`: lower-cased, after a `_` where the head does not
/// use it.
pub open spec fn map_arg(arg: Seq<char>, head_args: Seq<Seq<char>>) -> Seq<char> {
    if head_args.contains(arg) { lowercase_of(arg) } else { seq!['_'] + lowercase_of(arg) }
}

/// The operation of a rule with one literal in its body.
pub open spec fn map_op(r: RuleV, st: PlanV) -> (PlanV, OperationV) {
    let p0 = r.body[0].atom.predicate;
    let st1 = if !st.intens.contains(p0) { PlanV { ext_inputs: sins(st.ext_inputs, p0), ..st } } else { st };
    if st.extens.contains(p0) {
        (st1, OperationV::StaticMap(r.head.predicate + ".extend("@ + p0 + ".iter().clone());\n"@))
    } else {
        let src_args = join(r.body[0].atom.args.map_values(|a: Seq<char>| map_arg(a, r.head.args)), comma_space());
        let dest0 = join(r.head.args.map_values(|a: Seq<char>| map_arg(a, r.head.args)), comma_space());
        let dest_args = if r.head.args.len() == 1 { dest0 + ", ()"@ } else { dest0 };
        (st1, OperationV::DynamicMap(
            r.head.predicate + ".from_map(&"@ + p0 + ", |&("@ + src_args + ")| ("@ + dest_args + "));\n"@,
        ))
    }
}

/// The operation of rule `ri`.
pub open spec fn rule_op(d: DeclsV, r: RuleV, ri: int, st: PlanV) -> (PlanV, OperationV) {
    if r.body.len() == 1 {
        map_op(r, st)
    } else {
        let j = join_steps(d, r, ri, st, r.body.len() - 1);
        (PlanV { ok: j.0.ok && r.body.len() >= 2, ..j.0 }, OperationV::Join(j.1))
    }
}

/// The predicates of the heads of the first `i` rules.
pub open spec fn heads(rules: Seq<RuleV>, i: int) -> Seq<Seq<char>>
    decreases i,
{
    if i <= 0 { seq![] } else { sins(heads(rules, i - 1), rules[i - 1].head.predicate) }
}

/// `acc` with the predicates of the first `j` literals of `body` that are no heads.
pub open spec fn body_inputs(acc: Seq<Seq<char>>, body: Seq<LiteralV>, hs: Seq<Seq<char>>, j: int) -> Seq<Seq<char>>
    decreases j,
{
    if j <= 0 {
        acc
    } else {
        let a = body_inputs(acc, body, hs, j - 1);
        if hs.contains(body[j - 1].atom.predicate) { a } else { sins(a, body[j - 1].atom.predicate) }
    }
}

/// The predicates of the bodies of the first `i` rules that are no heads.
pub open spec fn inputs(rules: Seq<RuleV>, hs: Seq<Seq<char>>, i: int) -> Seq<Seq<char>>
    decreases i,
{
    if i <= 0 { seq![] } else { body_inputs(inputs(rules, hs, i - 1), rules[i - 1].body, hs, rules[i - 1].body.len() as int) }
}

/// The plan before the operation of any rule is planned.
pub open spec fn initial_plan(rules: Seq<RuleV>) -> PlanV {
    let hs = heads(rules, rules.len() as int);
    PlanV {
        intens: hs,
        extens: inputs(rules, hs, rules.len() as int),
        ext_inputs: seq![],
        int_inputs: seq![],
        ext_keys: seq![],
        ext_vals: seq![],
        int_keys: seq![],
        int_vals: seq![],
        consumed: seq![],
        ok: true,
    }
}

/// The plan and the operations of the first `i` rules.
pub open spec fn analysis(d: DeclsV, rules: Seq<RuleV>, i: int) -> (PlanV, Seq<OperationV>)
    decreases i,
{
    if i <= 0 {
        (initial_plan(rules), seq![])
    } else {
        let prev = analysis(d, rules, i - 1);
        let x = rule_op(d, rules[i - 1], i - 1, prev.0);
        (x.0, prev.1.push(x.1))
    }
}

// ---------------------------------------------------------------------------------------------
// The text of the operations.

/// The predicates used as inputs, and the lines of code before the loop and in it.
pub struct TextV {
    pub ext_inputs: Seq<Seq<char>>,
    pub int_inputs: Seq<Seq<char>>,
    pub statics: Seq<Seq<char>>,
    pub dynamic: Seq<Seq<char>>,
}

/// `t` once `p` is recorded as an input of its kind.
pub open spec fn record_use(p: Seq<char>, intens: Seq<Seq<char>>, t: TextV) -> TextV {
    if !intens.contains(p) {
        TextV { ext_inputs: sins(t.ext_inputs, p), ..t }
    } else {
        TextV { int_inputs: sins(t.int_inputs, p), ..t }
    }
}

/// The line of code of a join step.
pub open spec fn step_line(s: JoinStepV, last: bool, consumed: Seq<Seq<char>>) -> Seq<char> {
    let key = args_tuple(s.key, s.dest_key, s.dest_args);
    let ta = if s.rem_a.len() == 0 { seq!['_'] } else { seq!['&'] + args_tuple(s.rem_a, s.dest_key, s.dest_args) };
    let tb = if s.rem_b.len() == 0 { seq!['_'] } else { seq!['&'] + args_tuple(s.rem_b, s.dest_key, s.dest_args) };
    let p0 = if last {
        lowercase_of(join(s.dest_args, comma_space()))
    } else {
        args_tuple(s.dest_key, s.dest_key, s.dest_args) + comma_space() + args_tuple(s.dest_args, s.dest_key, s.dest_args)
    };
    let produced = if consumed.contains(s.dest) { seq!['('] + p0 + "), ()"@ } else { p0 };
    let op = if s.is_antijoin { "antijoin"@ } else { "join"@ };
    let args = if s.is_antijoin { ta } else { ta + comma_space() + tb };
    s.dest + ".from_"@ + op + "(&"@ + s.src_a + ", &"@ + s.src_b + ", |&"@ + key + comma_space() + args + "| ("@ + produced
        + "));"@
}

/// `t` with the first `n` of the join steps `steps`.
pub open spec fn steps_text(steps: Seq<JoinStepV>, n: int, intens: Seq<Seq<char>>, consumed: Seq<Seq<char>>, t: TextV) -> TextV
    decreases n,
{
    if n <= 0 {
        t
    } else {
        let t1 = steps_text(steps, n - 1, intens, consumed, t);
        let s = steps[n - 1];
        let t2 = record_use(s.src_b, intens, record_use(s.src_a, intens, t1));
        TextV { dynamic: t2.dynamic.push(step_line(s, n - 1 == steps.len() - 1, consumed)), ..t2 }
    }
}

/// The comment that names rule `i`: `// R01: ...`.
pub open spec fn rule_comment(r: RuleV, i: int) -> Seq<char> {
    "// "@ + seq!['R'] + dec2((i + 1) as nat) + ": "@ + rule_text(r)
}

/// `t` with the text of rule `i` of `n`, whose operation is `op`.
pub open spec fn rule_lines(r: RuleV, i: int, n: int, op: OperationV, intens: Seq<Seq<char>>, consumed: Seq<Seq<char>>, t: TextV) -> TextV {
    let c = rule_comment(r, i);
    let t1 = TextV { dynamic: t.dynamic.push(c), ..t };
    let t2 = match op {
        OperationV::StaticMap(text) => TextV {
            dynamic: t1.dynamic.push(
                "// `"@ + r.body[0].atom.predicate + "` is a static input, already loaded into `"@ + r.head.predicate + "`."@,
            ),
            statics: t1.statics.push(c).push(text),
            ..t1
        },
        OperationV::DynamicMap(text) => TextV { dynamic: t1.dynamic.push(text), ..t1 },
        OperationV::Join(steps) => steps_text(steps, steps.len() as int, intens, consumed, t1),
    };
    if i < n - 1 { TextV { dynamic: t2.dynamic.push(seq![]), ..t2 } } else { t2 }
}

/// The text of the first `i` rules.
pub open spec fn rules_lines(rules: Seq<RuleV>, ops: Seq<OperationV>, i: int, p: PlanV) -> TextV
    decreases i,
{
    if i <= 0 {
        TextV { ext_inputs: p.ext_inputs, int_inputs: p.int_inputs, statics: seq![], dynamic: seq![] }
    } else {
        rule_lines(rules[i - 1], i - 1, rules.len() as int, ops[i - 1], p.intens, p.consumed, rules_lines(rules, ops, i - 1, p))
    }
}

// ---------------------------------------------------------------------------------------------
// The report and the skeleton code.

/// A numbered line of the report: `01: \`name\`` and a note.
pub open spec fn numbered_line(k: int, name: Seq<char>, note: Seq<char>) -> Seq<char> {
    dec2((k + 1) as nat) + ": `"@ + name + seq!['`'] + note + seq!['\n']
}

/// The note on an intensional predicate that is an index.
pub open spec fn index_note(p: PlanV, v: Seq<char>) -> Seq<char> {
    match kv_get(p.int_keys, p.int_vals, v) {
        Some(ix) => " (index on `"@ + ix.pred + "`)"@,
        None => seq![],
    }
}

/// The numbered lines of the first `n` extensional names.
pub open spec fn ext_report_lines(names: Seq<Seq<char>>, n: int) -> Seq<char>
    decreases n,
{
    if n <= 0 { seq![] } else { ext_report_lines(names, n - 1) + numbered_line(n - 1, names[n - 1], seq![]) }
}

/// The numbered lines of the first `n` intensional names.
pub open spec fn int_report_lines(p: PlanV, names: Seq<Seq<char>>, n: int) -> Seq<char>
    decreases n,
{
    if n <= 0 {
        seq![]
    } else {
        int_report_lines(p, names, n - 1) + numbered_line(n - 1, names[n - 1], index_note(p, names[n - 1]))
    }
}

/// The report on the predicates: those used as extensional inputs, and the intensional ones.
pub open spec fn report_text(p: PlanV, t: TextV) -> Seq<char> {
    let ext = sort_strs(t.ext_inputs);
    let ints = sort_strs(p.intens);
    decimal(t.ext_inputs.len()) + " extensional predicates/indices used (out of "@ + decimal(p.extens.len())
        + ") and which can be a datafrog `Relation`:\n"@ + ext_report_lines(ext, ext.len() as int) + seq!['\n']
        + decimal(p.intens.len()) + " intensional predicates (including "@ + decimal(p.int_keys.len())
        + " indices) requiring a datafrog `Variable`:\n"@ + int_report_lines(p, ints, ints.len() as int)
}

/// The declared types of a relation, separated by `", "`.
pub open spec fn relation_types(ad: Seq<(Seq<char>, Seq<char>)>) -> Seq<char> {
    join(ad.map_values(|x: (Seq<char>, Seq<char>)| x.1), comma_space())
}

/// The types `t`, wrapped as a key with a unit value where the relation is consumed as a key.
pub open spec fn wrap_key(consumed: Seq<Seq<char>>, name: Seq<char>, t: Seq<char>) -> Seq<char> {
    if consumed.contains(name) { seq!['('] + t + "), ()"@ } else { t }
}

/// The code that creates an extensional relation.
pub open spec fn ext_decl_text(d: DeclsV, p: PlanV, rel: Seq<char>) -> Seq<char> {
    match decl_lookup(d, rel) {
        Some(ad) => "let "@ + rel + ": Relation<("@ + wrap_key(p.consumed, rel, relation_types(ad))
            + ")> = Vec::new().into();\n"@,
        None => {
            let e = kv_get(p.ext_keys, p.ext_vals, rel)->0;
            "\n// Note: `"@ + rel + "` is an indexed version of the input facts `"@ + e.0 + "`\n"@ + "let "@ + rel
                + ": Relation<("@ + wrap_key(p.consumed, rel, e.1) + ")> = Vec::new().into();\n\n"@
        },
    }
}

/// Whether an extensional relation is declared, or an index of one.
pub open spec fn ext_decl_ok(d: DeclsV, p: PlanV, rel: Seq<char>) -> bool {
    decl_lookup(d, rel) is Some || kv_get(p.ext_keys, p.ext_vals, rel) is Some
}

/// The code that creates an intensional variable.
pub open spec fn int_decl_text(d: DeclsV, p: PlanV, v: Seq<char>) -> Seq<char> {
    match decl_lookup(d, v) {
        Some(ad) => "let "@ + v + " = iteration.variable::<("@ + wrap_key(p.consumed, v, relation_types(ad)) + ")>("@
            + debug_str_of(v) + ");\n"@,
        None => match kv_get(p.int_keys, p.int_vals, v) {
            Some(ix) => "\n// Note: `"@ + v + "` is an indexed version of the `"@ + ix.pred + "` relation\n"@ + "let "@ + v
                + " = iteration.variable::<("@ + wrap_key(
                p.consumed,
                v,
                join_types(canon_types(d, ix.pred, ix.lit_args, ix.key), canon_types(d, ix.pred, ix.lit_args, ix.args)),
            ) + ")>("@ + debug_str_of(v) + ");\n"@,
            None => "let "@ + v + " = iteration.variable("@ + debug_str_of(v) + ");\n"@,
        },
    }
}

/// Whether the arguments of an index of an intensional variable have declared types.
pub open spec fn int_decl_ok(d: DeclsV, p: PlanV, v: Seq<char>) -> bool {
    decl_lookup(d, v) is None ==> match kv_get(p.int_keys, p.int_vals, v) {
        Some(ix) => forall|j: int| 0 <= j < (ix.key + ix.args).len()
            ==> find_arg_decl(d, ix.pred, ix.lit_args, #[trigger] (ix.key + ix.args)[j]) is Some,
        None => true,
    }
}

/// The line of code that maintains the index `name`.
pub open spec fn maintenance_line(d: DeclsV, p: PlanV, name: Seq<char>) -> Seq<char> {
    let ix = kv_get(p.int_keys, p.int_vals, name)->0;
    let names = (decl_lookup(d, ix.pred)->0).map_values(|x: (Seq<char>, Seq<char>)| x.0);
    "    "@ + name + ".from_map(&"@ + ix.pred + ", |&"@ + args_tuple(names, ix.key, ix.args) + "| ("@
        + args_tuple(ix.key, ix.key, ix.args) + comma_space() + args_tuple(ix.args, ix.key, ix.args) + "));\n"@
}

/// Whether the relation of the index `name` is declared.
pub open spec fn maintenance_ok(d: DeclsV, p: PlanV, name: Seq<char>) -> bool {
    decl_lookup(d, (kv_get(p.int_keys, p.int_vals, name)->0).pred) is Some
}

/// The code that makes the relation inferred as the output, where there is one.
pub open spec fn output_head(cands: Seq<Seq<char>>) -> Seq<char> {
    if cands.len() == 1 {
        "// `"@ + cands[0] + "` inferred as the output relation\n"@ + "let "@ + cands[0] + " = {\n"@
    } else {
        "// Note: couldn't infer output relation automatically\n"@
    }
}

/// The code that completes the output relation, where there is one.
pub open spec fn output_tail(cands: Seq<Seq<char>>) -> Seq<char> {
    if cands.len() == 1 { seq!['\n'] + cands[0] + ".complete()\n"@ + "};\n"@ } else { seq![] }
}

/// The skeleton code, the indices maintained in the order `order`.
pub open spec fn code_text(d: DeclsV, p: PlanV, t: TextV, order: Seq<Seq<char>>) -> Seq<char> {
    let ext = sort_strs(t.ext_inputs);
    let ints = sort_strs(p.intens);
    let cands = not_in(p.intens, t.int_inputs);
    "\n// Extensional predicates, and their indices\n\n"@ + concat(ext.map_values(|r: Seq<char>| ext_decl_text(d, p, r)))
        + seq!['\n'] + output_head(cands) + "\nlet mut iteration = Iteration::new();"@
        + "\n// Intensional predicates, and their indices\n\n"@ + concat(ints.map_values(|v: Seq<char>| int_decl_text(d, p, v)))
        + seq!['\n'] + concat(t.statics.map_values(|l: Seq<char>| l + seq!['\n'])) + "while iteration.changed() {\n"@
        + "\n    // Index maintenance\n"@ + concat(order.map_values(|n: Seq<char>| maintenance_line(d, p, n)))
        + "\n    // Rules\n\n"@ + concat(t.dynamic.map_values(|l: Seq<char>| "    "@ + l + seq!['\n'])) + "}\n"@
        + output_tail(cands)
}

/// The plan and operations of the rules `text`, with the declarations `decls`.
pub open spec fn skeleton_plan(decls: Seq<char>, text: Seq<char>) -> (PlanV, Seq<OperationV>) {
    let rules = rules_of(clean(text));
    analysis(decls_of(decls), rules, rules.len() as int)
}

/// The text of the operations of the rules `text`.
pub open spec fn skeleton_lines(decls: Seq<char>, text: Seq<char>) -> TextV {
    let rules = rules_of(clean(text));
    let a = skeleton_plan(decls, text);
    rules_lines(rules, a.1, rules.len() as int, a.0)
}

/// Whether the declarations and rules can be read and each lookup finds what it looks for.
pub open spec fn skeleton_ok(decls: Seq<char>, text: Seq<char>) -> bool {
    let d = decls_of(decls);
    let p = skeleton_plan(decls, text).0;
    let t = skeleton_lines(decls, text);
    &&& decls_ok(decls)
    &&& parseable(clean(text))
    &&& p.ok
    &&& forall|k: int|
        0 <= k < sort_strs(t.ext_inputs).len() ==> ext_decl_ok(d, p, #[trigger] sort_strs(t.ext_inputs)[k])
    &&& forall|k: int| 0 <= k < sort_strs(p.intens).len() ==> int_decl_ok(d, p, #[trigger] sort_strs(p.intens)[k])
    &&& forall|k: int| 0 <= k < p.int_keys.len() ==> maintenance_ok(d, p, #[trigger] p.int_keys[k])
}

// ---------------------------------------------------------------------------------------------
// Executable helpers on names.

/// Where `first_from` finds `x`, it stands there, and not before.
proof fn lemma_first_from(s: Seq<Seq<char>>, x: Seq<char>, i: int)
    requires
        0 <= i,
    ensures
        first_from(s, x, i) matches Some(j) ==> i <= j < s.len() && s[j] == x,
        first_from(s, x, i) is None ==> forall|k: int| i <= k < s.len() ==> s[k] != x,
    decreases s.len() - i,
{
    if i < s.len() && s[i] != x {
        lemma_first_from(s, x, i + 1);
    }
}

/// `first_at` finds `x` exactly where `s` holds it.
proof fn lemma_first_at(s: Seq<Seq<char>>, x: Seq<char>)
    ensures
        first_at(s, x) is Some <==> s.contains(x),
        first_at(s, x) matches Some(j) ==> 0 <= j < s.len() && s[j] == x,
{
    lemma_first_from(s, x, 0);
    if s.contains(x) {
        let j = choose|j: int| 0 <= j < s.len() && s[j] == x;
        assert(s[j] == x);
    }
}

/// Whether `a` and `b` hold the same characters.
pub(crate) fn same_chars(a: &Vec<char>, b: &Vec<char>) -> (r: bool)
    ensures
        r == (a@ == b@),
{
    if a.len() != b.len() {
        return false;
    }
    let mut i: usize = 0;
    while i < a.len()
        invariant
            i <= a.len(),
            a.len() == b.len(),
            forall|k: int| 0 <= k < i ==> a@[k] == b@[k],
        decreases a.len() - i,
    {
        if a[i] != b[i] {
            return false;
        }
        i = i + 1;
    }
    assert(a@ =~= b@);
    true
}

/// A copy of `a`.
fn copy_of(a: &Vec<char>) -> (r: Vec<char>)
    ensures
        r@ == a@,
{
    let r = slice(a, 0, a.len());
    assert(r@ =~= a@);
    r
}

/// Copies of the names `v`.
fn copy_names(v: &Vec<Vec<char>>) -> (r: Vec<Vec<char>>)
    ensures
        char_seqs(r@) == char_seqs(v@),
{
    let mut r: Vec<Vec<char>> = Vec::new();
    let mut i: usize = 0;
    while i < v.len()
        invariant
            i <= v.len(),
            char_seqs(r@) == char_seqs(v@).take(i as int),
        decreases v.len() - i,
    {
        let c = copy_of(&v[i]);
        let ghost before = r@;
        r.push(c);
        proof {
            assert(char_seqs(r@) =~= char_seqs(before).push(c@));
            assert(char_seqs(v@).take(i + 1) =~= char_seqs(v@).take(i as int).push(v@[i as int]@));
        }
        i = i + 1;
    }
    assert(char_seqs(v@).take(v.len() as int) =~= char_seqs(v@));
    r
}

/// The characters of each string of `v`.
fn names_of_strings(v: &Vec<String>) -> (r: Vec<Vec<char>>)
    ensures
        char_seqs(r@) == strs_view(v@),
{
    let mut r: Vec<Vec<char>> = Vec::new();
    let mut i: usize = 0;
    while i < v.len()
        invariant
            i <= v.len(),
            char_seqs(r@) == strs_view(v@).take(i as int),
        decreases v.len() - i,
    {
        let c = chars_of(v[i].as_str());
        let ghost before = r@;
        r.push(c);
        proof {
            assert(char_seqs(r@) =~= char_seqs(before).push(c@));
            assert(strs_view(v@).take(i + 1) =~= strs_view(v@).take(i as int).push(v@[i as int]@));
        }
        i = i + 1;
    }
    assert(strs_view(v@).take(v.len() as int) =~= strs_view(v@));
    r
}

/// The first index where `x` stands in `v`.
fn find_name(v: &Vec<Vec<char>>, x: &Vec<char>) -> (r: Option<usize>)
    ensures
        r is Some <==> first_at(char_seqs(v@), x@) is Some,
        r matches Some(i) ==> first_at(char_seqs(v@), x@) == Some(i as int),
{
    let ghost s = char_seqs(v@);
    let mut i: usize = 0;
    while i < v.len()
        invariant
            i <= v.len(),
            s == char_seqs(v@),
            first_at(s, x@) == first_from(s, x@, i as int),
        decreases v.len() - i,
    {
        if same_chars(&v[i], x) {
            return Some(i);
        }
        i = i + 1;
    }
    None
}

/// Whether `v` holds `x`.
fn has_name(v: &Vec<Vec<char>>, x: &Vec<char>) -> (r: bool)
    ensures
        r == char_seqs(v@).contains(x@),
{
    proof {
        lemma_first_at(char_seqs(v@), x@);
    }
    find_name(v, x).is_some()
}

/// Adds `x` to the names `v`, where they do not hold it yet.
fn add_name(v: &mut Vec<Vec<char>>, x: &Vec<char>)
    ensures
        char_seqs(final(v)@) == sins(char_seqs(old(v)@), x@),
{
    if !has_name(v, x) {
        let c = copy_of(x);
        v.push(c);
        proof {
            assert(char_seqs(v@) =~= char_seqs(old(v)@).push(x@));
        }
    }
}

/// Maps `k` to `val` in the map whose keys are `keys` and whose values are `vals`.
fn map_insert<V: View>(keys: &mut Vec<Vec<char>>, vals: &mut Vec<V>, k: &Vec<char>, val: V)
    requires
        old(keys).len() == old(vals).len(),
    ensures
        final(keys).len() == final(vals).len(),
        char_seqs(final(keys)@) == sins(char_seqs(old(keys)@), k@),
        final(vals)@.map_values(|x: V| x@) == kv_vals(char_seqs(old(keys)@), old(vals)@.map_values(|x: V| x@), k@, val@),
{
    let f = find_name(keys, k);
    proof {
        lemma_first_at(char_seqs(keys@), k@);
    }
    match f {
        Some(i) => {
            vals.set(i, val);
            proof {
                assert(final(vals)@.map_values(|x: V| x@) =~= old(vals)@.map_values(|x: V| x@).update(i as int, val@));
            }
        },
        None => {
            let c = copy_of(k);
            keys.push(c);
            vals.push(val);
            proof {
                assert(char_seqs(keys@) =~= char_seqs(old(keys)@).push(k@));
                assert(final(vals)@.map_values(|x: V| x@) =~= old(vals)@.map_values(|x: V| x@).push(val@));
            }
        },
    }
}

// ---------------------------------------------------------------------------------------------
// Reading the declarations.

/// A declared argument: its name, lower-cased, and its Rust type.
struct ArgDecl {
    name: Vec<char>,
    rust_type: Vec<char>,
}

impl View for ArgDecl {
    type V = (Seq<char>, Seq<char>);

    closed spec fn view(&self) -> (Seq<char>, Seq<char>) {
        (self.name@, self.rust_type@)
    }
}

/// The declared arguments of a relation.
spec fn arg_decls_view(v: Seq<ArgDecl>) -> Seq<(Seq<char>, Seq<char>)> {
    v.map_values(|a: ArgDecl| a@)
}

/// Relation declarations, by name.
struct Decls {
    preds: Vec<Vec<char>>,
    args: Vec<Vec<ArgDecl>>,
}

impl View for Decls {
    type V = DeclsV;

    closed spec fn view(&self) -> DeclsV {
        DeclsV { preds: char_seqs(self.preds@), args: self.args@.map_values(|v: Vec<ArgDecl>| arg_decls_view(v@)) }
    }
}

impl Decls {
    spec fn wf(&self) -> bool {
        self.preds.len() == self.args.len()
    }
}

/// Declares `p` with the arguments `a`, in place of any earlier declaration of `p`.
fn declare(d: &mut Decls, p: &Vec<char>, a: Vec<ArgDecl>)
    requires
        old(d).wf(),
    ensures
        final(d).wf(),
        final(d)@ == decl_insert(old(d)@, p@, arg_decls_view(a@)),
{
    let ghost view_a = arg_decls_view(a@);
    let f = find_name(&d.preds, p);
    proof {
        lemma_first_at(char_seqs(d.preds@), p@);
    }
    match f {
        Some(i) => {
            d.args.set(i, a);
            proof {
                assert(final(d)@.args =~= old(d)@.args.update(i as int, view_a));
            }
        },
        None => {
            let c = copy_of(p);
            d.preds.push(c);
            d.args.push(a);
            proof {
                assert(char_seqs(d.preds@) =~= char_seqs(old(d).preds@).push(p@));
                assert(final(d)@.args =~= old(d)@.args.push(view_a));
            }
        },
    }
}

/// The characters `c`.
fn one_char(c: char) -> (r: Vec<char>)
    ensures
        r@ == seq![c],
{
    let mut v: Vec<char> = Vec::new();
    v.push(c);
    assert(v@ =~= seq![c]);
    v
}

/// Reads a declaration line (see [`decl_pred`] and [`decl_args`]).
fn read_decl_line(t: &Vec<char>) -> (r: (Vec<char>, Vec<ArgDecl>))
    requires
        decl_line_ok(t@),
    ensures
        r.0@ == decl_pred(t@),
        arg_decls_view(r.1@) == decl_args(t@),
{
    let mut k: usize = 0;
    let mut bytes: u32 = 0;
    while bytes < 6
        invariant
            k <= t.len(),
            bytes == byte_offset(t@, k as int),
            bytes <= 10,
            char_at_byte(t@, 6, 0) == char_at_byte(t@, 6, k as int),
            char_at_byte(t@, 6, 0) is Some,
        decreases t.len() - k,
    {
        proof {
            crate::lexer::lemma_utf8_len_bounds(t@[k as int]);
        }
        bytes = bytes + utf8_len_of(t[k]);
        k = k + 1;
    }
    let rest = slice(t, k, t.len());
    proof {
        assert(rest@ =~= decl_rest(t@));
        lemma_index_from(rest@, '(', 0);
    }
    let idx = find_char(&rest, '(').unwrap();
    let pred = slice(&rest, 0, idx);
    let a = slice(&rest, idx, rest.len());
    proof {
        assert(pred@ =~= rest@.take(idx as int));
        assert(a@ =~= rest@.skip(idx as int));
        lemma_index_from(a@, ')', 0);
        assert(a@[0] == '(');
    }
    let end = find_char(&a, ')').unwrap();
    let inner = slice(&a, 1, end);
    let pieces = split_chars(&inner, &one_char(','));
    let ghost ps = char_seqs(pieces@);
    let mut args: Vec<ArgDecl> = Vec::new();
    let mut i: usize = 0;
    while i < pieces.len()
        invariant
            i <= pieces.len(),
            ps == char_seqs(pieces@),
            ps == decl_arg_pieces(t@),
            decl_line_ok(t@),
            arg_decls_view(args@) == ps.take(i as int).map_values(|p: Seq<char>| arg_decl_of(p)),
        decreases pieces.len() - i,
    {
        let tp = trim_chars(&pieces[i]);
        let parts = split_chars(&tp, &one_char(':'));
        proof {
            assert(ps[i as int] == pieces@[i as int]@);
            assert(split(trim(ps[i as int]), seq![':']).len() >= 2);
            assert(char_seqs(parts@)[0] == parts@[0]@);
            assert(char_seqs(parts@)[1] == parts@[1]@);
        }
        let name = lowercase(&parts[0]);
        let ty = trim_chars(&parts[1]);
        let ghost before = args@;
        let decl = ArgDecl { name, rust_type: ty };
        args.push(decl);
        proof {
            assert(arg_decls_view(args@) =~= arg_decls_view(before).push(decl@));
            assert(ps.take(i + 1).map_values(|p: Seq<char>| arg_decl_of(p)) =~= ps.take(i as int).map_values(
                |p: Seq<char>| arg_decl_of(p),
            ).push(arg_decl_of(ps[i as int])));
        }
        i = i + 1;
    }
    proof {
        assert(ps.take(pieces.len() as int) =~= ps);
    }
    (pred, args)
}

/// Reads the relation declarations of a text (see [`decls_of`]).
fn parse_declarations(decls: &str) -> (r: Decls)
    requires
        decls_ok(decls@),
    ensures
        r.wf(),
        r@ == decls_of(decls@),
{
    let cs = chars_of(decls);
    let lines = split_chars(&cs, &one_char('\n'));
    let ghost all = char_seqs(lines@);
    let mut d = Decls { preds: Vec::new(), args: Vec::new() };
    proof {
        assert(d@.preds =~= seq![]);
        assert(d@.args =~= seq![]);
        assert(all.take(0) =~= seq![]);
    }
    let mut i: usize = 0;
    while i < lines.len()
        invariant
            i <= lines.len(),
            all == char_seqs(lines@),
            all == split(decls@, seq!['\n']),
            decls_ok(decls@),
            d.wf(),
            d@ == decls_from(nonempty_trimmed(all.take(i as int))),
        decreases lines.len() - i,
    {
        let t = trim_chars(&lines[i]);
        proof {
            let u = all.take(i + 1);
            assert(u.drop_last() =~= all.take(i as int));
            assert(u.last() == lines@[i as int]@);
            assert(all.take(all.len() as int) =~= all);
            lemma_nonempty_trimmed_prefix(all, i + 1, all.len() as int);
        }
        if t.len() > 0 {
            proof {
                let before = nonempty_trimmed(all.take(i as int));
                let after = nonempty_trimmed(all.take(i + 1));
                let lines_all = decl_lines(decls@);
                assert(after == before.push(t@));
                assert(lines_all.take(after.len() as int) == after);
                assert(after[before.len() as int] == t@);
                assert(lines_all.take(after.len() as int)[before.len() as int] == lines_all[before.len() as int]);
                assert(decl_line_ok(lines_all[before.len() as int]));
            }
            let (p, a) = read_decl_line(&t);
            declare(&mut d, &p, a);
            proof {
                let before = nonempty_trimmed(all.take(i as int));
                let after = nonempty_trimmed(all.take(i + 1));
                assert(after.drop_last() =~= before);
                assert(after.last() == t@);
            }
        } else {
            proof {
                assert(nonempty_trimmed(all.take(i + 1)) == nonempty_trimmed(all.take(i as int)));
            }
        }
        i = i + 1;
    }
    proof {
        assert(all.take(lines.len() as int) =~= all);
    }
    d
}

// ---------------------------------------------------------------------------------------------
// Lookups, index names and tuples.

/// The declared argument that stands where `var` first stands in `args` (see
/// [`find_arg_decl`]).
fn arg_decl_for(d: &Decls, pred: &Vec<char>, args: &Vec<Vec<char>>, var: &Vec<char>) -> (r: (Vec<char>, Vec<char>))
    requires
        d.wf(),
        find_arg_decl(d@, pred@, char_seqs(args@), var@) is Some,
    ensures
        (r.0@, r.1@) == find_arg_decl(d@, pred@, char_seqs(args@), var@)->0,
{
    proof {
        lemma_first_at(char_seqs(args@), var@);
        lemma_first_at(char_seqs(d.preds@), pred@);
    }
    let i = find_name(args, var).unwrap();
    let j = find_name(&d.preds, pred).unwrap();
    let ad = &d.args[j];
    proof {
        assert(d@.args[j as int] == arg_decls_view(ad@));
    }
    let a = &ad[i];
    (copy_of(&a.name), copy_of(&a.rust_type))
}

/// The name of the index of `pred` on `key` (see [`index_name`]).
fn index_name_of(d: &Decls, pred: &Vec<char>, args: &Vec<Vec<char>>, key: &Vec<Vec<char>>) -> (r: Vec<char>)
    requires
        d.wf(),
        index_name_ok(d@, pred@, char_seqs(args@), char_seqs(key@)),
    ensures
        r@ == index_name(d@, pred@, char_seqs(args@), char_seqs(key@)),
{
    let ghost a = char_seqs(args@);
    let ghost k = char_seqs(key@);
    let mut r = copy_of(pred);
    r.push('_');
    let ghost start = r@;
    let mut i: usize = 0;
    proof {
        assert(k.take(0) =~= seq![]);
        assert(start =~= pred@ + seq!['_']);
    }
    while i < key.len()
        invariant
            i <= key.len(),
            a == char_seqs(args@),
            k == char_seqs(key@),
            d.wf(),
            index_name_ok(d@, pred@, a, k),
            start == pred@ + seq!['_'],
            r@ == start + index_suffix(d@, pred@, a, k.take(i as int)),
        decreases key.len() - i,
    {
        proof {
            assert(k[i as int] == key@[i as int]@);
            assert(find_arg_decl(d@, pred@, a, k[i as int]) is Some);
        }
        let (n, _t) = arg_decl_for(d, pred, args, &key[i]);
        push_chars(&mut r, &n);
        proof {
            assert(k.take(i + 1).drop_last() =~= k.take(i as int));
            assert(k.take(i + 1).last() == k[i as int]);
        }
        i = i + 1;
    }
    proof {
        assert(k.take(key.len() as int) =~= k);
    }
    r
}

/// The characters `", "`.
fn comma_space_vec() -> (r: Vec<char>)
    ensures
        r@ == comma_space(),
{
    let mut v: Vec<char> = Vec::new();
    v.push(',');
    v.push(' ');
    assert(v@ =~= comma_space());
    v
}

/// The Rust name of a datalog argument (see [`name_arg`]).
fn name_arg_of(arg: &Vec<char>, uk: &Vec<Vec<char>>, ua: &Vec<Vec<char>>) -> (r: Vec<char>)
    ensures
        r@ == name_arg(arg@, char_seqs(uk@), char_seqs(ua@)),
{
    let up = uppercase(arg);
    let used = has_name(uk, arg) || has_name(uk, &up) || has_name(ua, arg) || has_name(ua, &up);
    let low = lowercase(arg);
    if used {
        low
    } else {
        let mut r = one_char('_');
        push_chars(&mut r, &low);
        r
    }
}

/// The Rust names of `vars` as a tuple (see [`args_tuple`]).
fn args_tuple_of(vars: &Vec<Vec<char>>, uk: &Vec<Vec<char>>, ua: &Vec<Vec<char>>) -> (r: Vec<char>)
    ensures
        r@ == args_tuple(char_seqs(vars@), char_seqs(uk@), char_seqs(ua@)),
{
    let ghost v = char_seqs(vars@);
    let ghost k = char_seqs(uk@);
    let ghost a = char_seqs(ua@);
    if vars.len() == 1 {
        return name_arg_of(&vars[0], uk, ua);
    }
    let mut names: Vec<Vec<char>> = Vec::new();
    let mut i: usize = 0;
    while i < vars.len()
        invariant
            i <= vars.len(),
            v == char_seqs(vars@),
            k == char_seqs(uk@),
            a == char_seqs(ua@),
            char_seqs(names@) == v.take(i as int).map_values(|x: Seq<char>| name_arg(x, k, a)),
        decreases vars.len() - i,
    {
        let n = name_arg_of(&vars[i], uk, ua);
        let ghost before = names@;
        names.push(n);
        proof {
            assert(char_seqs(names@) =~= char_seqs(before).push(n@));
            assert(v.take(i + 1).map_values(|x: Seq<char>| name_arg(x, k, a)) =~= v.take(i as int).map_values(
                |x: Seq<char>| name_arg(x, k, a),
            ).push(name_arg(v[i as int], k, a)));
        }
        i = i + 1;
    }
    proof {
        assert(v.take(vars.len() as int) =~= v);
    }
    let mut r = one_char('(');
    push_joined(&mut r, &names, &comma_space_vec());
    r.push(')');
    proof {
        assert(r@ =~= seq!['('] + join(v.map_values(|x: Seq<char>| name_arg(x, k, a)), comma_space()) + seq![')']);
    }
    r
}

/// The types `ts` as a tuple (see [`types_tuple`]).
fn types_tuple_of(ts: &Vec<Vec<char>>) -> (r: Vec<char>)
    ensures
        r@ == types_tuple(char_seqs(ts@)),
{
    if ts.len() == 1 {
        proof {
            assert(char_seqs(ts@)[0] == ts@[0]@);
        }
        return copy_of(&ts[0]);
    }
    let mut r = one_char('(');
    push_joined(&mut r, ts, &comma_space_vec());
    r.push(')');
    proof {
        assert(r@ =~= seq!['('] + join(char_seqs(ts@), comma_space()) + seq![')']);
    }
    r
}

/// The types of a key and of the arguments it leads to (see [`join_types`]).
fn join_types_of(kt: &Vec<Vec<char>>, at: &Vec<Vec<char>>) -> (r: Vec<char>)
    ensures
        r@ == join_types(char_seqs(kt@), char_seqs(at@)),
{
    let mut r = types_tuple_of(kt);
    push_chars(&mut r, &comma_space_vec());
    push_chars(&mut r, &types_tuple_of(at));
    r
}

/// The types of the declared arguments named in `names` (see [`types_named_in`]).
fn types_named(ad: &Vec<ArgDecl>, names: &Vec<Vec<char>>) -> (r: Vec<Vec<char>>)
    ensures
        char_seqs(r@) == types_named_in(arg_decls_view(ad@), char_seqs(names@)),
{
    let ghost v = arg_decls_view(ad@);
    let ghost n = char_seqs(names@);
    let mut r: Vec<Vec<char>> = Vec::new();
    let mut i: usize = 0;
    proof {
        assert(v.take(0) =~= seq![]);
    }
    while i < ad.len()
        invariant
            i <= ad.len(),
            v == arg_decls_view(ad@),
            n == char_seqs(names@),
            char_seqs(r@) == types_named_in(v.take(i as int), n),
        decreases ad.len() - i,
    {
        let up = uppercase(&ad[i].name);
        proof {
            assert(v.take(i + 1).drop_last() =~= v.take(i as int));
            assert(v.take(i + 1).last() == ad@[i as int]@);
        }
        if has_name(names, &up) {
            let c = copy_of(&ad[i].rust_type);
            let ghost before = r@;
            r.push(c);
            proof {
                assert(char_seqs(r@) =~= char_seqs(before).push(c@));
            }
        }
        i = i + 1;
    }
    proof {
        assert(v.take(ad.len() as int) =~= v);
    }
    r
}

/// The declared types of the arguments `vars` (see [`canon_types`]).
fn canon_types_of(d: &Decls, pred: &Vec<char>, args: &Vec<Vec<char>>, vars: &Vec<Vec<char>>) -> (r: Vec<Vec<char>>)
    requires
        d.wf(),
        forall|j: int| 0 <= j < vars.len() ==> find_arg_decl(d@, pred@, char_seqs(args@), #[trigger] char_seqs(vars@)[j]) is Some,
    ensures
        char_seqs(r@) == canon_types(d@, pred@, char_seqs(args@), char_seqs(vars@)),
{
    let ghost v = char_seqs(vars@);
    let ghost a = char_seqs(args@);
    let mut r: Vec<Vec<char>> = Vec::new();
    let mut i: usize = 0;
    while i < vars.len()
        invariant
            i <= vars.len(),
            v == char_seqs(vars@),
            a == char_seqs(args@),
            d.wf(),
            forall|j: int| 0 <= j < vars.len() ==> find_arg_decl(d@, pred@, a, #[trigger] v[j]) is Some,
            char_seqs(r@) == v.take(i as int).map_values(|x: Seq<char>| (find_arg_decl(d@, pred@, a, x)->0).1),
        decreases vars.len() - i,
    {
        proof {
            assert(v[i as int] == vars@[i as int]@);
        }
        let (_n, t) = arg_decl_for(d, pred, args, &vars[i]);
        let ghost before = r@;
        r.push(t);
        proof {
            assert(char_seqs(r@) =~= char_seqs(before).push(t@));
            assert(v.take(i + 1).map_values(|x: Seq<char>| (find_arg_decl(d@, pred@, a, x)->0).1) =~= v.take(
                i as int,
            ).map_values(|x: Seq<char>| (find_arg_decl(d@, pred@, a, x)->0).1).push(
                (find_arg_decl(d@, pred@, a, v[i as int])->0).1,
            ));
        }
        i = i + 1;
    }
    proof {
        assert(v.take(vars.len() as int) =~= v);
    }
    r
}

// ---------------------------------------------------------------------------------------------
// Join keys and the arguments they leave.

/// The arguments of a literal.
fn literal_args(lit: &Literal) -> (r: Vec<Vec<char>>)
    ensures
        char_seqs(r@) == lit@.atom.args,
{
    names_of_strings(&lit.atom.args)
}

/// The predicate of a literal.
fn literal_pred(lit: &Literal) -> (r: Vec<char>)
    ensures
        r@ == lit@.atom.predicate,
{
    chars_of(lit.atom.predicate.as_str())
}

/// The arguments of `b` that `a` holds too (see [`shared_args`]).
fn shared_args_of(b: &Vec<Vec<char>>, a: &Vec<Vec<char>>) -> (r: Vec<Vec<char>>)
    ensures
        char_seqs(r@) == shared_args(char_seqs(b@), char_seqs(a@)),
{
    let ghost bs = char_seqs(b@);
    let ghost as_ = char_seqs(a@);
    let mut r: Vec<Vec<char>> = Vec::new();
    let mut i: usize = 0;
    proof {
        assert(bs.take(0) =~= seq![]);
    }
    while i < b.len()
        invariant
            i <= b.len(),
            bs == char_seqs(b@),
            as_ == char_seqs(a@),
            char_seqs(r@) == shared_args(bs.take(i as int), as_),
        decreases b.len() - i,
    {
        proof {
            assert(bs.take(i + 1).drop_last() =~= bs.take(i as int));
            assert(bs.take(i + 1).last() == b@[i as int]@);
        }
        if has_name(a, &b[i]) {
            let c = copy_of(&b[i]);
            let ghost before = r@;
            r.push(c);
            proof {
                assert(char_seqs(r@) =~= char_seqs(before).push(c@));
            }
        }
        i = i + 1;
    }
    proof {
        assert(bs.take(b.len() as int) =~= bs);
    }
    r
}

/// Whether `arg` is used from literal `skip` of the body on, or by the head (see
/// [`used_later`]).
fn used_later_of(arg: &Vec<char>, body: &Vec<Literal>, head_args: &Vec<Vec<char>>, skip: usize) -> (r: bool)
    ensures
        r == used_later(arg@, literals_view(body@), char_seqs(head_args@), skip as int),
{
    let ghost lv = literals_view(body@);
    let mut j: usize = skip;
    while j < body.len()
        invariant
            skip <= j,
            lv == literals_view(body@),
            forall|jj: int| skip <= jj < j && jj < body.len() ==> !(#[trigger] lv[jj]).atom.args.contains(arg@),
        decreases body.len() - j,
    {
        let la = literal_args(&body[j]);
        proof {
            assert(lv[j as int] == body@[j as int]@);
        }
        if has_name(&la, arg) {
            proof {
                assert(skip <= j < lv.len() && lv[j as int].atom.args.contains(arg@));
            }
            return true;
        }
        j = j + 1;
    }
    proof {
        assert forall|jj: int| skip <= jj < lv.len() implies !(#[trigger] lv[jj]).atom.args.contains(arg@) by {}
    }
    has_name(head_args, arg)
}

/// The arguments of `a` outside the key that are still used (see [`remaining_args`]).
fn remaining_of(
    a: &Vec<Vec<char>>,
    key: &Vec<Vec<char>>,
    body: &Vec<Literal>,
    head_args: &Vec<Vec<char>>,
    skip: usize,
) -> (r: Vec<Vec<char>>)
    ensures
        char_seqs(r@) == remaining_args(char_seqs(a@), char_seqs(key@), literals_view(body@), char_seqs(head_args@), skip as int),
{
    let ghost as_ = char_seqs(a@);
    let ghost k = char_seqs(key@);
    let ghost lv = literals_view(body@);
    let ghost h = char_seqs(head_args@);
    let mut r: Vec<Vec<char>> = Vec::new();
    let mut i: usize = 0;
    proof {
        assert(as_.take(0) =~= seq![]);
    }
    while i < a.len()
        invariant
            i <= a.len(),
            as_ == char_seqs(a@),
            k == char_seqs(key@),
            lv == literals_view(body@),
            h == char_seqs(head_args@),
            char_seqs(r@) == remaining_args(as_.take(i as int), k, lv, h, skip as int),
        decreases a.len() - i,
    {
        proof {
            assert(as_.take(i + 1).drop_last() =~= as_.take(i as int));
            assert(as_.take(i + 1).last() == a@[i as int]@);
        }
        if !has_name(key, &a[i]) && used_later_of(&a[i], body, head_args, skip) {
            let c = copy_of(&a[i]);
            let ghost before = r@;
            r.push(c);
            proof {
                assert(char_seqs(r@) =~= char_seqs(before).push(c@));
            }
        }
        i = i + 1;
    }
    proof {
        assert(as_.take(a.len() as int) =~= as_);
    }
    r
}

// ---------------------------------------------------------------------------------------------
// The plan.

/// An index of an intensional relation (see [`IndexV`]).
struct IndexUse {
    pred: Vec<char>,
    lit_args: Vec<Vec<char>>,
    key: Vec<Vec<char>>,
    args: Vec<Vec<char>>,
}

impl View for IndexUse {
    type V = IndexV;

    closed spec fn view(&self) -> IndexV {
        IndexV {
            pred: self.pred@,
            lit_args: char_seqs(self.lit_args@),
            key: char_seqs(self.key@),
            args: char_seqs(self.args@),
        }
    }
}

/// What the plan knows of the relations (see [`PlanV`]); the names of the intensional indices
/// are also held by a map, which gives the order in which their maintenance is written.
struct Plan {
    intens: Vec<Vec<char>>,
    extens: Vec<Vec<char>>,
    ext_inputs: Vec<Vec<char>>,
    int_inputs: Vec<Vec<char>>,
    ext_keys: Vec<Vec<char>>,
    ext_vals: Vec<(Vec<char>, Vec<char>)>,
    int_keys: Vec<Vec<char>>,
    int_vals: Vec<IndexUse>,
    index_names: FxHashMap<String, ()>,
    consumed: Vec<Vec<char>>,
    ok: Ghost<bool>,
}

impl View for Plan {
    type V = PlanV;

    closed spec fn view(&self) -> PlanV {
        PlanV {
            intens: char_seqs(self.intens@),
            extens: char_seqs(self.extens@),
            ext_inputs: char_seqs(self.ext_inputs@),
            int_inputs: char_seqs(self.int_inputs@),
            ext_keys: char_seqs(self.ext_keys@),
            ext_vals: self.ext_vals@.map_values(|x: (Vec<char>, Vec<char>)| x@),
            int_keys: char_seqs(self.int_keys@),
            int_vals: self.int_vals@.map_values(|x: IndexUse| x@),
            consumed: char_seqs(self.consumed@),
            ok: self.ok@,
        }
    }
}

impl Plan {
    spec fn wf(&self) -> bool {
        &&& self.ext_keys.len() == self.ext_vals.len()
        &&& self.int_keys.len() == self.int_vals.len()
        &&& fx_names(self.index_names) == char_seqs(self.int_keys@).to_set()
    }
}

/// The names of `sins(s, x)` are those of `s` and `x`.
proof fn lemma_sins_to_set(s: Seq<Seq<char>>, x: Seq<char>)
    ensures
        sins(s, x).to_set() == s.to_set().insert(x),
{
    assert forall|y: Seq<char>| sins(s, x).to_set().contains(y) <==> s.to_set().insert(x).contains(y) by {
        if !s.contains(x) {
            if s.push(x).contains(y) && y != x {
                let i = choose|i: int| 0 <= i < s.push(x).len() && s.push(x)[i] == y;
                assert(s[i] == y);
            }
            if s.contains(y) {
                let i = choose|i: int| 0 <= i < s.len() && s[i] == y;
                assert(s.push(x)[i] == y);
            }
            assert(s.push(x)[s.len() as int] == x);
        }
    }
    assert(sins(s, x).to_set() =~= s.to_set().insert(x));
}

/// Records the index on `key` through which the literal `lit` is read, and gives its name
/// (see [`gen_index`]).
fn record_index(
    plan: &mut Plan,
    d: &Decls,
    lit: &Literal,
    key: &Vec<Vec<char>>,
    args: &Vec<Vec<char>>,
    rem: &Vec<Vec<char>>,
) -> (r: Vec<char>)
    requires
        old(plan).wf(),
        d.wf(),
        gen_index(d@, lit@, char_seqs(key@), char_seqs(args@), char_seqs(rem@), old(plan)@).1.ok,
    ensures
        final(plan).wf(),
        (r@, final(plan)@) == gen_index(d@, lit@, char_seqs(key@), char_seqs(args@), char_seqs(rem@), old(plan)@),
{
    let p = literal_pred(lit);
    let name = index_name_of(d, &p, args, key);
    if has_name(&plan.extens, &p) {
        proof {
            lemma_first_at(char_seqs(d.preds@), p@);
        }
        let j = find_name(&d.preds, &p).unwrap();
        proof {
            assert(d@.args[j as int] == arg_decls_view(d.args@[j as int]@));
        }
        let kt = types_named(&d.args[j], key);
        let at = types_named(&d.args[j], rem);
        let types = join_types_of(&kt, &at);
        add_name(&mut plan.extens, &name);
        let pc = copy_of(&p);
        map_insert(&mut plan.ext_keys, &mut plan.ext_vals, &name, (pc, types));
    } else {
        add_name(&mut plan.intens, &name);
        add_name(&mut plan.int_inputs, &p);
        let ix = IndexUse { pred: copy_of(&p), lit_args: literal_args(lit), key: copy_names(key), args: copy_names(rem) };
        map_insert(&mut plan.int_keys, &mut plan.int_vals, &name, ix);
        fx_insert(&mut plan.index_names, &name);
        proof {
            lemma_sins_to_set(char_seqs(old(plan).int_keys@), name@);
        }
    }
    name
}

// ---------------------------------------------------------------------------------------------
// Planning the operations of the rules.

/// A join step (see [`JoinStepV`]).
struct JoinStep {
    src_a: Vec<char>,
    src_b: Vec<char>,
    is_antijoin: bool,
    key: Vec<Vec<char>>,
    args: Vec<Vec<char>>,
    rem_a: Vec<Vec<char>>,
    rem_b: Vec<Vec<char>>,
    dest: Vec<char>,
    dest_key: Vec<Vec<char>>,
    dest_args: Vec<Vec<char>>,
}

impl View for JoinStep {
    type V = JoinStepV;

    closed spec fn view(&self) -> JoinStepV {
        JoinStepV {
            src_a: self.src_a@,
            src_b: self.src_b@,
            is_antijoin: self.is_antijoin,
            key: char_seqs(self.key@),
            args: char_seqs(self.args@),
            rem_a: char_seqs(self.rem_a@),
            rem_b: char_seqs(self.rem_b@),
            dest: self.dest@,
            dest_key: char_seqs(self.dest_key@),
            dest_args: char_seqs(self.dest_args@),
        }
    }
}

/// The abstract values of join steps.
spec fn steps_view(v: Seq<JoinStep>) -> Seq<JoinStepV> {
    v.map_values(|s: JoinStep| s@)
}

/// What a rule does in datafrog terms (see [`OperationV`]).
enum Operation {
    StaticMap(Vec<char>),
    DynamicMap(Vec<char>),
    Join(Vec<JoinStep>),
}

impl View for Operation {
    type V = OperationV;

    closed spec fn view(&self) -> OperationV {
        match self {
            Operation::StaticMap(t) => OperationV::StaticMap(t@),
            Operation::DynamicMap(t) => OperationV::DynamicMap(t@),
            Operation::Join(steps) => OperationV::Join(steps_view(steps@)),
        }
    }
}

/// The abstract values of operations.
spec fn ops_view(v: Seq<Operation>) -> Seq<OperationV> {
    v.map_values(|o: Operation| o@)
}

/// The names of `a` followed by those of `b`.
fn concat_names(a: &Vec<Vec<char>>, b: &Vec<Vec<char>>) -> (r: Vec<Vec<char>>)
    ensures
        char_seqs(r@) == char_seqs(a@) + char_seqs(b@),
{
    let mut r = copy_names(a);
    let mut i: usize = 0;
    while i < b.len()
        invariant
            i <= b.len(),
            char_seqs(r@) == char_seqs(a@) + char_seqs(b@).take(i as int),
        decreases b.len() - i,
    {
        let c = copy_of(&b[i]);
        let ghost before = r@;
        r.push(c);
        proof {
            assert(char_seqs(r@) =~= char_seqs(before).push(c@));
            assert(char_seqs(b@).take(i + 1) =~= char_seqs(b@).take(i as int).push(b@[i as int]@));
        }
        i = i + 1;
    }
    assert(char_seqs(b@).take(b.len() as int) =~= char_seqs(b@));
    r
}

/// The relation that the step at literal `t` of rule `ri` produces (see [`step_dest`]).
fn step_dest_of(rule: &Rule, ri: usize, t: usize) -> (r: Vec<char>)
    requires
        ri < usize::MAX,
        t < rule.body.len(),
    ensures
        r@ == step_dest(rule@, ri as int, t as int),
{
    let mut r = chars_of(rule.head.predicate.as_str());
    if t + 1 != rule.body.len() {
        push_str(&mut r, "_step_");
        push_decimal(&mut r, (ri + 1) as u64);
        r.push('_');
        push_decimal(&mut r, t as u64);
    }
    r
}

/// Each join step changes the plan only where it found what it looked for.
proof fn lemma_join_step_ok(d: DeclsV, r: RuleV, ri: int, st: PlanV, steps: Seq<JoinStepV>, t: int)
    ensures
        join_step(d, r, ri, st, steps, t).0.ok ==> st.ok,
        (t == 1 || steps.len() > 0) ==> join_step(d, r, ri, st, steps, t).1.len() == steps.len() + 1,
{
}

/// The first `k` join steps number `k`, and their plan is sound only where the plans before
/// were.
proof fn lemma_join_steps(d: DeclsV, r: RuleV, ri: int, st: PlanV, a: int, b: int)
    requires
        0 <= a <= b,
    ensures
        join_steps(d, r, ri, st, b).0.ok ==> join_steps(d, r, ri, st, a).0.ok,
        join_steps(d, r, ri, st, b).1.len() == b,
    decreases b,
{
    if b > 0 {
        let prev = join_steps(d, r, ri, st, b - 1);
        lemma_join_step_ok(d, r, ri, prev.0, prev.1, b);
        if a < b {
            lemma_join_steps(d, r, ri, st, a, b - 1);
        } else {
            lemma_join_steps(d, r, ri, st, b - 1, b - 1);
        }
    }
}

/// Appends the join step at literal `t` of rule `ri` to `steps` (see [`join_step`]).
fn push_join_step(plan: &mut Plan, steps: &mut Vec<JoinStep>, d: &Decls, rule: &Rule, ri: usize, t: usize)
    requires
        old(plan).wf(),
        d.wf(),
        1 <= t < rule.body.len(),
        ri < usize::MAX,
        old(steps).len() == t - 1,
        join_step(d@, rule@, ri as int, old(plan)@, steps_view(old(steps)@), t as int).0.ok,
    ensures
        final(plan).wf(),
        (final(plan)@, steps_view(final(steps)@)) == join_step(d@, rule@, ri as int, old(plan)@, steps_view(old(steps)@), t as int),
{
    let ghost r = rule@;
    let ghost sv = steps_view(steps@);
    let ghost st = plan@;
    let first = t == 1;
    let dest = step_dest_of(rule, ri, t);
    add_name(&mut plan.intens, &dest);
    proof {
        assert(r.body == literals_view(rule.body@));
        assert(r.body[0] == rule.body@[0]@);
        assert(r.body[t as int] == rule.body@[t as int]@);
        if !first {
            assert(sv.last() == steps@[t - 2]@);
        }
    }
    let args_a = if first {
        literal_args(&rule.body[0])
    } else {
        concat_names(&steps[t - 2].key, &steps[t - 2].args)
    };
    let args_b = literal_args(&rule.body[t]);
    let key = shared_args_of(&args_b, &args_a);
    let head_args = names_of_strings(&rule.head.args);
    let rem_a = remaining_of(&args_a, &key, &rule.body, &head_args, t);
    let rem_b = remaining_of(&args_b, &key, &rule.body, &head_args, t);
    let src_a = if !first {
        copy_of(&steps[t - 2].dest)
    } else if rem_a.len() == 0 {
        literal_pred(&rule.body[0])
    } else {
        record_index(plan, d, &rule.body[0], &key, &args_a, &rem_a)
    };
    let src_b = if rem_b.len() == 0 {
        literal_pred(&rule.body[t])
    } else {
        record_index(plan, d, &rule.body[t], &key, &args_b, &rem_b)
    };
    let anti = rule.body[t].is_negated;
    if !anti && rem_a.len() == 0 {
        add_name(&mut plan.consumed, &src_a);
    }
    if !anti && rem_b.len() == 0 {
        add_name(&mut plan.consumed, &src_b);
    }
    if !first {
        let mut prev = steps.pop().unwrap();
        prev.dest_key = copy_names(&key);
        prev.dest_args = copy_names(&rem_a);
        steps.push(prev);
        proof {
            assert(steps_view(steps@) =~= sv.update(sv.len() - 1, JoinStepV {
                dest_key: char_seqs(key@),
                dest_args: char_seqs(rem_a@),
                ..sv.last()
            }));
        }
    }
    let dest_args = if t + 1 == rule.body.len() { head_args } else { Vec::new() };
    let args = concat_names(&rem_a, &rem_b);
    let step = JoinStep {
        src_a,
        src_b,
        is_antijoin: anti,
        key,
        args,
        rem_a,
        rem_b,
        dest,
        dest_key: Vec::new(),
        dest_args,
    };
    let ghost before = steps@;
    steps.push(step);
    proof {
        assert(steps_view(steps@) =~= steps_view(before).push(step@));
        assert(char_seqs(step.dest_key@) =~= seq![]);
        if t + 1 != rule.body.len() {
            assert(char_seqs(step.dest_args@) =~= seq![]);
        }
    }
}

/// The Rust name of an argument of a `map` (see [`map_arg`]).
fn map_arg_of(arg: &Vec<char>, head_args: &Vec<Vec<char>>) -> (r: Vec<char>)
    ensures
        r@ == map_arg(arg@, char_seqs(head_args@)),
{
    let low = lowercase(arg);
    if has_name(head_args, arg) {
        low
    } else {
        let mut r = one_char('_');
        push_chars(&mut r, &low);
        r
    }
}

/// The Rust names of the arguments `vars` of a `map`, separated by `", "`.
fn map_args_text(vars: &Vec<Vec<char>>, head_args: &Vec<Vec<char>>) -> (r: Vec<char>)
    ensures
        r@ == join(char_seqs(vars@).map_values(|a: Seq<char>| map_arg(a, char_seqs(head_args@))), comma_space()),
{
    let ghost v = char_seqs(vars@);
    let ghost h = char_seqs(head_args@);
    let mut names: Vec<Vec<char>> = Vec::new();
    let mut i: usize = 0;
    while i < vars.len()
        invariant
            i <= vars.len(),
            v == char_seqs(vars@),
            h == char_seqs(head_args@),
            char_seqs(names@) == v.take(i as int).map_values(|a: Seq<char>| map_arg(a, h)),
        decreases vars.len() - i,
    {
        let n = map_arg_of(&vars[i], head_args);
        let ghost before = names@;
        names.push(n);
        proof {
            assert(char_seqs(names@) =~= char_seqs(before).push(n@));
            assert(v.take(i + 1).map_values(|a: Seq<char>| map_arg(a, h)) =~= v.take(i as int).map_values(
                |a: Seq<char>| map_arg(a, h),
            ).push(map_arg(v[i as int], h)));
        }
        i = i + 1;
    }
    assert(v.take(vars.len() as int) =~= v);
    let mut r: Vec<char> = Vec::new();
    push_joined(&mut r, &names, &comma_space_vec());
    assert(r@ =~= join(v.map_values(|a: Seq<char>| map_arg(a, h)), comma_space()));
    r
}

/// The operation of a rule with one literal in its body (see [`map_op`]).
fn map_operation(plan: &mut Plan, rule: &Rule) -> (op: Operation)
    requires
        old(plan).wf(),
        rule.body.len() == 1,
    ensures
        final(plan).wf(),
        (final(plan)@, op@) == map_op(rule@, old(plan)@),
{
    let ghost r = rule@;
    proof {
        assert(r.body[0] == rule.body@[0]@);
    }
    let p0 = literal_pred(&rule.body[0]);
    let head = chars_of(rule.head.predicate.as_str());
    let in_int = has_name(&plan.intens, &p0);
    let in_ext = has_name(&plan.extens, &p0);
    if !in_int {
        add_name(&mut plan.ext_inputs, &p0);
    }
    if in_ext {
        let mut t = head;
        push_str(&mut t, ".extend(");
        push_chars(&mut t, &p0);
        push_str(&mut t, ".iter().clone());\n");
        Operation::StaticMap(t)
    } else {
        let head_args = names_of_strings(&rule.head.args);
        let src_args = map_args_text(&literal_args(&rule.body[0]), &head_args);
        let mut dest_args = map_args_text(&head_args, &head_args);
        if rule.head.args.len() == 1 {
            push_str(&mut dest_args, ", ()");
        }
        let mut t = head;
        push_str(&mut t, ".from_map(&");
        push_chars(&mut t, &p0);
        push_str(&mut t, ", |&(");
        push_chars(&mut t, &src_args);
        push_str(&mut t, ")| (");
        push_chars(&mut t, &dest_args);
        push_str(&mut t, "));\n");
        Operation::DynamicMap(t)
    }
}

/// The operation of rule `ri` (see [`rule_op`]).
fn rule_operation(plan: &mut Plan, d: &Decls, rule: &Rule, ri: usize) -> (op: Operation)
    requires
        old(plan).wf(),
        d.wf(),
        ri < usize::MAX,
        rule_op(d@, rule@, ri as int, old(plan)@).0.ok,
    ensures
        final(plan).wf(),
        (final(plan)@, op@) == rule_op(d@, rule@, ri as int, old(plan)@),
{
    if rule.body.len() == 1 {
        return map_operation(plan, rule);
    }
    let ghost st = plan@;
    let ghost r = rule@;
    let n = rule.body.len();
    let mut steps: Vec<JoinStep> = Vec::new();
    let mut t: usize = 1;
    proof {
        assert(steps_view(steps@) =~= seq![]);
        lemma_join_steps(d@, r, ri as int, st, 0, n - 1);
    }
    while t < n
        invariant
            1 <= t <= n,
            n == rule.body.len(),
            n >= 2,
            r == rule@,
            ri < usize::MAX,
            d.wf(),
            plan.wf(),
            join_steps(d@, r, ri as int, st, n - 1).0.ok,
            (plan@, steps_view(steps@)) == join_steps(d@, r, ri as int, st, t - 1),
            steps.len() == t - 1,
        decreases n - t,
    {
        proof {
            lemma_join_steps(d@, r, ri as int, st, t as int, n - 1);
        }
        push_join_step(plan, &mut steps, d, rule, ri, t);
        proof {
            lemma_join_steps(d@, r, ri as int, st, t as int, t as int);
        }
        t = t + 1;
    }
    Operation::Join(steps)
}

/// The plan before the operation of any rule is planned.(see [`initial_plan`]).
fn initial_plan_of(rules: &Vec<Rule>) -> (plan: Plan)
    ensures
        plan.wf(),
        plan@ == initial_plan(rules_view(rules@)),
{
    let ghost rv = rules_view(rules@);
    let mut hs: Vec<Vec<char>> = Vec::new();
    let mut i: usize = 0;
    while i < rules.len()
        invariant
            i <= rules.len(),
            rv == rules_view(rules@),
            char_seqs(hs@) == heads(rv, i as int),
        decreases rules.len() - i,
    {
        proof {
            assert(rv[i as int] == rules@[i as int]@);
        }
        let h = chars_of(rules[i].head.predicate.as_str());
        add_name(&mut hs, &h);
        i = i + 1;
    }
    let mut ins: Vec<Vec<char>> = Vec::new();
    let mut i: usize = 0;
    proof {
        assert(char_seqs(ins@) =~= seq![]);
    }
    while i < rules.len()
        invariant
            i <= rules.len(),
            rv == rules_view(rules@),
            char_seqs(hs@) == heads(rv, rv.len() as int),
            char_seqs(ins@) == inputs(rv, heads(rv, rv.len() as int), i as int),
        decreases rules.len() - i,
    {
        let body = &rules[i].body;
        let ghost lv = literals_view(body@);
        let ghost acc = char_seqs(ins@);
        proof {
            assert(rv[i as int] == rules@[i as int]@);
            assert(rv[i as int].body == lv);
        }
        let mut j: usize = 0;
        while j < body.len()
            invariant
                j <= body.len(),
                lv == literals_view(body@),
                char_seqs(ins@) == body_inputs(acc, lv, char_seqs(hs@), j as int),
            decreases body.len() - j,
        {
            let p = literal_pred(&body[j]);
            proof {
                assert(lv[j as int] == body@[j as int]@);
            }
            if !has_name(&hs, &p) {
                add_name(&mut ins, &p);
            }
            j = j + 1;
        }
        i = i + 1;
    }
    let plan = Plan {
        intens: hs,
        extens: ins,
        ext_inputs: Vec::new(),
        int_inputs: Vec::new(),
        ext_keys: Vec::new(),
        ext_vals: Vec::new(),
        int_keys: Vec::new(),
        int_vals: Vec::new(),
        index_names: fx_empty(),
        consumed: Vec::new(),
        ok: Ghost(true),
    };
    proof {
        assert(char_seqs(plan.int_keys@).to_set() =~= Set::<Seq<char>>::empty());
        assert(plan@.ext_inputs =~= seq![]);
        assert(plan@.int_inputs =~= seq![]);
        assert(plan@.ext_keys =~= seq![]);
        assert(plan@.ext_vals =~= seq![]);
        assert(plan@.int_keys =~= seq![]);
        assert(plan@.int_vals =~= seq![]);
        assert(plan@.consumed =~= seq![]);
    }
    plan
}

/// Each rule changes the plan only where it found what it looked for.
proof fn lemma_rule_op_ok(d: DeclsV, r: RuleV, ri: int, st: PlanV)
    ensures
        rule_op(d, r, ri, st).0.ok ==> st.ok,
{
    if r.body.len() != 1 && r.body.len() >= 2 {
        lemma_join_steps(d, r, ri, st, 0, r.body.len() - 1);
    }
}

/// The plan of the first `b` rules is sound only where the plans before were.
proof fn lemma_analysis_ok(d: DeclsV, rules: Seq<RuleV>, a: int, b: int)
    requires
        0 <= a <= b,
    ensures
        analysis(d, rules, b).0.ok ==> analysis(d, rules, a).0.ok,
    decreases b,
{
    if a < b {
        let prev = analysis(d, rules, b - 1);
        lemma_rule_op_ok(d, rules[b - 1], b - 1, prev.0);
        lemma_analysis_ok(d, rules, a, b - 1);
    }
}

/// The plan and operations of the rules (see [`analysis`]).
fn analyze(d: &Decls, rules: &Vec<Rule>) -> (r: (Plan, Vec<Operation>))
    requires
        d.wf(),
        analysis(d@, rules_view(rules@), rules.len() as int).0.ok,
    ensures
        r.0.wf(),
        (r.0@, ops_view(r.1@)) == analysis(d@, rules_view(rules@), rules.len() as int),
{
    let ghost rv = rules_view(rules@);
    let mut plan = initial_plan_of(rules);
    let mut ops: Vec<Operation> = Vec::new();
    let mut i: usize = 0;
    proof {
        assert(ops_view(ops@) =~= seq![]);
    }
    while i < rules.len()
        invariant
            i <= rules.len(),
            rv == rules_view(rules@),
            d.wf(),
            plan.wf(),
            analysis(d@, rv, rv.len() as int).0.ok,
            (plan@, ops_view(ops@)) == analysis(d@, rv, i as int),
        decreases rules.len() - i,
    {
        proof {
            lemma_analysis_ok(d@, rv, i + 1, rv.len() as int);
            assert(rv[i as int] == rules@[i as int]@);
        }
        let op = rule_operation(&mut plan, d, &rules[i], i);
        let ghost before = ops@;
        ops.push(op);
        proof {
            assert(ops_view(ops@) =~= ops_view(before).push(op@));
        }
        i = i + 1;
    }
    (plan, ops)
}

// ---------------------------------------------------------------------------------------------
// Writing the operations.

/// The predicates used as inputs, and the lines of code (see [`TextV`]).
struct Texts {
    ext_inputs: Vec<Vec<char>>,
    int_inputs: Vec<Vec<char>>,
    statics: Vec<Vec<char>>,
    dynamic: Vec<Vec<char>>,
}

impl View for Texts {
    type V = TextV;

    closed spec fn view(&self) -> TextV {
        TextV {
            ext_inputs: char_seqs(self.ext_inputs@),
            int_inputs: char_seqs(self.int_inputs@),
            statics: char_seqs(self.statics@),
            dynamic: char_seqs(self.dynamic@),
        }
    }
}

/// Adds a line of code.
fn push_line(lines: &mut Vec<Vec<char>>, line: Vec<char>)
    ensures
        char_seqs(final(lines)@) == char_seqs(old(lines)@).push(line@),
{
    lines.push(line);
    assert(char_seqs(lines@) =~= char_seqs(old(lines)@).push(line@));
}

/// Records `p` as an input of its kind (see [`record_use`]).
fn record_input(t: &mut Texts, p: &Vec<char>, intens: &Vec<Vec<char>>)
    ensures
        final(t)@ == record_use(p@, char_seqs(intens@), old(t)@),
{
    if !has_name(intens, p) {
        add_name(&mut t.ext_inputs, p);
    } else {
        add_name(&mut t.int_inputs, p);
    }
}

/// Appends `n` on at least two digits (see [`dec2`]).
fn push_dec2(v: &mut Vec<char>, n: u64)
    ensures
        final(v)@ == old(v)@ + dec2(n as nat),
{
    if n < 10 {
        v.push('0');
    }
    push_decimal(v, n);
    proof {
        if n < 10 {
            assert(final(v)@ =~= old(v)@ + (seq!['0'] + decimal(n as nat)));
        }
    }
}

/// The line of code of a join step (see [`step_line`]).
fn step_line_of(s: &JoinStep, last: bool, consumed: &Vec<Vec<char>>) -> (r: Vec<char>)
    ensures
        r@ == step_line(s@, last, char_seqs(consumed@)),
{
    let ghost sv = s@;
    let key = args_tuple_of(&s.key, &s.dest_key, &s.dest_args);
    let ta = if s.rem_a.len() == 0 {
        one_char('_')
    } else {
        let mut v = one_char('&');
        push_chars(&mut v, &args_tuple_of(&s.rem_a, &s.dest_key, &s.dest_args));
        v
    };
    let tb = if s.rem_b.len() == 0 {
        one_char('_')
    } else {
        let mut v = one_char('&');
        push_chars(&mut v, &args_tuple_of(&s.rem_b, &s.dest_key, &s.dest_args));
        v
    };
    let p0 = if last {
        let mut j: Vec<char> = Vec::new();
        push_joined(&mut j, &s.dest_args, &comma_space_vec());
        proof {
            assert(j@ =~= join(sv.dest_args, comma_space()));
        }
        lowercase(&j)
    } else {
        let mut v = args_tuple_of(&s.dest_key, &s.dest_key, &s.dest_args);
        push_chars(&mut v, &comma_space_vec());
        push_chars(&mut v, &args_tuple_of(&s.dest_args, &s.dest_key, &s.dest_args));
        v
    };
    let produced = if has_name(consumed, &s.dest) {
        let mut v = one_char('(');
        push_chars(&mut v, &p0);
        push_str(&mut v, "), ()");
        v
    } else {
        p0
    };
    let mut r = copy_of(&s.dest);
    push_str(&mut r, ".from_");
    if s.is_antijoin {
        push_str(&mut r, "antijoin");
    } else {
        push_str(&mut r, "join");
    }
    push_str(&mut r, "(&");
    push_chars(&mut r, &s.src_a);
    push_str(&mut r, ", &");
    push_chars(&mut r, &s.src_b);
    push_str(&mut r, ", |&");
    push_chars(&mut r, &key);
    push_chars(&mut r, &comma_space_vec());
    push_chars(&mut r, &ta);
    if !s.is_antijoin {
        push_chars(&mut r, &comma_space_vec());
        push_chars(&mut r, &tb);
    }
    push_str(&mut r, "| (");
    push_chars(&mut r, &produced);
    push_str(&mut r, "));");
    proof {
        let op = if sv.is_antijoin { "antijoin"@ } else { "join"@ };
        let args = if sv.is_antijoin { ta@ } else { ta@ + comma_space() + tb@ };
        assert(r@ =~= sv.dest + ".from_"@ + op + "(&"@ + sv.src_a + ", &"@ + sv.src_b + ", |&"@ + key@ + comma_space()
            + args + "| ("@ + produced@ + "));"@);
    }
    r
}

/// Writes the join steps (see [`steps_text`]).
fn push_steps_text(t: &mut Texts, steps: &Vec<JoinStep>, intens: &Vec<Vec<char>>, consumed: &Vec<Vec<char>>)
    ensures
        final(t)@ == steps_text(steps_view(steps@), steps.len() as int, char_seqs(intens@), char_seqs(consumed@), old(t)@),
{
    let ghost sv = steps_view(steps@);
    let ghost t0 = t@;
    let mut i: usize = 0;
    while i < steps.len()
        invariant
            i <= steps.len(),
            sv == steps_view(steps@),
            t@ == steps_text(sv, i as int, char_seqs(intens@), char_seqs(consumed@), t0),
        decreases steps.len() - i,
    {
        proof {
            assert(sv[i as int] == steps@[i as int]@);
        }
        record_input(t, &steps[i].src_a, intens);
        record_input(t, &steps[i].src_b, intens);
        let line = step_line_of(&steps[i], i + 1 == steps.len(), consumed);
        push_line(&mut t.dynamic, line);
        i = i + 1;
    }
}

/// The comment that names rule `i` (see [`rule_comment`]).
fn rule_comment_of(rule: &Rule, i: usize) -> (r: Vec<char>)
    requires
        i < usize::MAX,
    ensures
        r@ == rule_comment(rule@, i as int),
{
    let mut r: Vec<char> = Vec::new();
    push_str(&mut r, "// ");
    r.push('R');
    push_dec2(&mut r, (i + 1) as u64);
    push_str(&mut r, ": ");
    let text = rule.to_string();
    push_str(&mut r, text.as_str());
    proof {
        assert(r@ =~= "// "@ + seq!['R'] + dec2((i + 1) as nat) + ": "@ + rule_text(rule@));
    }
    r
}

/// Writes rule `i` of `n` (see [`rule_lines`]).
fn push_rule_lines(
    t: &mut Texts,
    rule: &Rule,
    i: usize,
    n: usize,
    op: &Operation,
    intens: &Vec<Vec<char>>,
    consumed: &Vec<Vec<char>>,
)
    requires
        i < n,
        op@ is StaticMap ==> rule.body.len() >= 1,
    ensures
        final(t)@ == rule_lines(rule@, i as int, n as int, op@, char_seqs(intens@), char_seqs(consumed@), old(t)@),
{
    let c = rule_comment_of(rule, i);
    push_line(&mut t.dynamic, copy_of(&c));
    match op {
        Operation::StaticMap(text) => {
            proof {
                assert(rule@.body[0] == rule.body@[0]@);
            }
            let mut line: Vec<char> = Vec::new();
            push_str(&mut line, "// `");
            push_chars(&mut line, &literal_pred(&rule.body[0]));
            push_str(&mut line, "` is a static input, already loaded into `");
            push_str(&mut line, rule.head.predicate.as_str());
            push_str(&mut line, "`.");
            push_line(&mut t.dynamic, line);
            push_line(&mut t.statics, c);
            push_line(&mut t.statics, copy_of(text));
        },
        Operation::DynamicMap(text) => {
            push_line(&mut t.dynamic, copy_of(text));
        },
        Operation::Join(steps) => {
            push_steps_text(t, steps, intens, consumed);
        },
    }
    if i + 1 < n {
        let empty: Vec<char> = Vec::new();
        proof {
            assert(empty@ =~= seq![]);
        }
        push_line(&mut t.dynamic, empty);
    }
}

/// The operations of the first `k` rules are those planned for them.
proof fn lemma_analysis_ops(d: DeclsV, rules: Seq<RuleV>, i: int, k: int)
    requires
        0 <= i < k,
    ensures
        analysis(d, rules, k).1.len() == k,
        analysis(d, rules, k).1[i] == rule_op(d, rules[i], i, analysis(d, rules, i).0).1,
    decreases k,
{
    if k > 1 {
        if i < k - 1 {
            lemma_analysis_ops(d, rules, i, k - 1);
        } else {
            lemma_analysis_ops(d, rules, 0, k - 1);
        }
    } else {
        assert(analysis(d, rules, 0).1 =~= seq![]);
    }
}

/// Writes the rules (see [`rules_lines`]).
fn write_rules(rules: &Vec<Rule>, ops: &Vec<Operation>, plan: &Plan, Ghost(d): Ghost<DeclsV>) -> (t: Texts)
    requires
        (plan@, ops_view(ops@)) == analysis(d, rules_view(rules@), rules.len() as int),
    ensures
        t@ == rules_lines(rules_view(rules@), ops_view(ops@), rules.len() as int, plan@),
{
    let ghost rv = rules_view(rules@);
    let ghost ov = ops_view(ops@);
    let mut t = Texts {
        ext_inputs: copy_names(&plan.ext_inputs),
        int_inputs: copy_names(&plan.int_inputs),
        statics: Vec::new(),
        dynamic: Vec::new(),
    };
    proof {
        assert(t@.statics =~= seq![]);
        assert(t@.dynamic =~= seq![]);
    }
    let mut i: usize = 0;
    while i < rules.len()
        invariant
            i <= rules.len(),
            rv == rules_view(rules@),
            ov == ops_view(ops@),
            (plan@, ov) == analysis(d, rv, rv.len() as int),
            t@ == rules_lines(rv, ov, i as int, plan@),
        decreases rules.len() - i,
    {
        proof {
            lemma_analysis_ops(d, rv, i as int, rv.len() as int);
            assert(rv[i as int] == rules@[i as int]@);
            assert(ov[i as int] == ops@[i as int]@);
        }
        push_rule_lines(&mut t, &rules[i], i, rules.len(), &ops[i], &plan.intens, &plan.consumed);
        i = i + 1;
    }
    t
}

// ---------------------------------------------------------------------------------------------
// Sorting names.

/// Whether `a` comes before `b` (see [`str_lt`]).
fn str_less(a: &Vec<char>, b: &Vec<char>) -> (r: bool)
    ensures
        r == str_lt(a@, b@),
{
    let mut i: usize = 0;
    assert(a@.skip(0) =~= a@);
    assert(b@.skip(0) =~= b@);
    loop
        invariant
            i <= a.len(),
            i <= b.len(),
            str_lt(a@, b@) == str_lt(a@.skip(i as int), b@.skip(i as int)),
        decreases a.len() - i,
    {
        if i == a.len() {
            return i < b.len();
        }
        if i == b.len() {
            return false;
        }
        let x = a[i];
        let y = b[i];
        proof {
            assert(a@.skip(i as int)[0] == x);
            assert(b@.skip(i as int)[0] == y);
        }
        if x != y {
            return (x as u32) < (y as u32);
        }
        proof {
            assert(a@.skip(i as int).drop_first() =~= a@.skip(i + 1));
            assert(b@.skip(i as int).drop_first() =~= b@.skip(i + 1));
        }
        i = i + 1;
    }
}

/// `x` put into the sorted `s` goes where the first name after it stands.
proof fn lemma_insert_sorted(s: Seq<Seq<char>>, x: Seq<char>, p: int)
    requires
        0 <= p <= s.len(),
        forall|k: int| 0 <= k < p ==> !str_lt(x, #[trigger] s[k]),
        p < s.len() ==> str_lt(x, s[p]),
    ensures
        insert_sorted(s, x) == s.insert(p, x),
    decreases s.len(),
{
    if s.len() == 0 {
        assert(s.insert(p, x) =~= seq![x]);
    } else if p == 0 {
        assert(s.insert(p, x) =~= seq![x] + s);
    } else {
        let t = s.drop_first();
        assert forall|k: int| 0 <= k < p - 1 implies !str_lt(x, #[trigger] t[k]) by {
            assert(t[k] == s[k + 1]);
        }
        lemma_insert_sorted(t, x, p - 1);
        assert(s.insert(p, x) =~= seq![s[0]] + t.insert(p - 1, x));
    }
}

/// Puts `x` into the sorted names `v` (see [`insert_sorted`]).
fn insert_name_sorted(v: &mut Vec<Vec<char>>, x: Vec<char>)
    ensures
        char_seqs(final(v)@) == insert_sorted(char_seqs(old(v)@), x@),
{
    let ghost s = char_seqs(v@);
    let mut p: usize = 0;
    while p < v.len() && !str_less(&x, &v[p])
        invariant
            p <= v.len(),
            s == char_seqs(v@),
            forall|k: int| 0 <= k < p ==> !str_lt(x@, #[trigger] s[k]),
        decreases v.len() - p,
    {
        p = p + 1;
    }
    proof {
        lemma_insert_sorted(s, x@, p as int);
    }
    let ghost xv = x@;
    v.insert(p, x);
    proof {
        assert(char_seqs(v@) =~= s.insert(p as int, xv));
    }
}

/// The names `v`, sorted (see [`sort_strs`]).
fn sorted_names(v: &Vec<Vec<char>>) -> (r: Vec<Vec<char>>)
    ensures
        char_seqs(r@) == sort_strs(char_seqs(v@)),
{
    let ghost s = char_seqs(v@);
    let mut r: Vec<Vec<char>> = Vec::new();
    let mut i: usize = 0;
    proof {
        assert(s.take(0) =~= seq![]);
        assert(char_seqs(r@) =~= seq![]);
    }
    while i < v.len()
        invariant
            i <= v.len(),
            s == char_seqs(v@),
            char_seqs(r@) == sort_strs(s.take(i as int)),
        decreases v.len() - i,
    {
        proof {
            assert(s.take(i + 1).drop_last() =~= s.take(i as int));
            assert(s.take(i + 1).last() == v@[i as int]@);
        }
        insert_name_sorted(&mut r, copy_of(&v[i]));
        i = i + 1;
    }
    proof {
        assert(s.take(v.len() as int) =~= s);
    }
    r
}

/// The names of `v` that `t` does not hold (see [`not_in`]).
fn names_not_in(v: &Vec<Vec<char>>, t: &Vec<Vec<char>>) -> (r: Vec<Vec<char>>)
    ensures
        char_seqs(r@) == not_in(char_seqs(v@), char_seqs(t@)),
{
    let ghost s = char_seqs(v@);
    let mut r: Vec<Vec<char>> = Vec::new();
    let mut i: usize = 0;
    proof {
        assert(s.take(0) =~= seq![]);
        assert(char_seqs(r@) =~= seq![]);
    }
    while i < v.len()
        invariant
            i <= v.len(),
            s == char_seqs(v@),
            char_seqs(r@) == not_in(s.take(i as int), char_seqs(t@)),
        decreases v.len() - i,
    {
        proof {
            assert(s.take(i + 1).drop_last() =~= s.take(i as int));
            assert(s.take(i + 1).last() == v@[i as int]@);
        }
        if !has_name(t, &v[i]) {
            push_line(&mut r, copy_of(&v[i]));
        }
        i = i + 1;
    }
    proof {
        assert(s.take(v.len() as int) =~= s);
    }
    r
}

// ---------------------------------------------------------------------------------------------
// The report and the code.

/// `concat` of a sequence with one more piece.
proof fn lemma_concat_step(s: Seq<Seq<char>>, i: int)
    requires
        0 <= i < s.len(),
    ensures
        concat(s.take(i + 1)) == concat(s.take(i)) + s[i],
{
    assert(s.take(i + 1).drop_last() =~= s.take(i));
}

/// The note on an intensional predicate that is an index (see [`index_note`]).
fn index_note_of(p: &Plan, v: &Vec<char>) -> (r: Vec<char>)
    requires
        p.wf(),
    ensures
        r@ == index_note(p@, v@),
{
    match find_name(&p.int_keys, v) {
        Some(i) => {
            proof {
                lemma_first_at(char_seqs(p.int_keys@), v@);
                assert(p@.int_vals[i as int] == p.int_vals@[i as int]@);
            }
            let mut r: Vec<char> = Vec::new();
            push_str(&mut r, " (index on `");
            push_chars(&mut r, &p.int_vals[i].pred);
            push_str(&mut r, "`)");
            r
        },
        None => {
            let r: Vec<char> = Vec::new();
            assert(r@ =~= seq![]);
            r
        },
    }
}

/// Appends a numbered line of the report (see [`numbered_line`]).
fn push_numbered_line(out: &mut Vec<char>, k: usize, name: &Vec<char>, note: &Vec<char>)
    requires
        k < usize::MAX,
    ensures
        final(out)@ == old(out)@ + numbered_line(k as int, name@, note@),
{
    push_dec2(out, (k + 1) as u64);
    push_str(out, ": `");
    push_chars(out, name);
    out.push('`');
    push_chars(out, note);
    out.push('\n');
    proof {
        assert(final(out)@ =~= old(out)@ + numbered_line(k as int, name@, note@));
    }
}

/// The report on the predicates (see [`report_text`]).
fn report_of(p: &Plan, t: &Texts) -> (r: Vec<char>)
    requires
        p.wf(),
    ensures
        r@ == report_text(p@, t@),
{
    let ext = sorted_names(&t.ext_inputs);
    let ints = sorted_names(&p.intens);
    let ghost es = char_seqs(ext@);
    let ghost is = char_seqs(ints@);
    let mut r: Vec<char> = Vec::new();
    push_decimal(&mut r, t.ext_inputs.len() as u64);
    push_str(&mut r, " extensional predicates/indices used (out of ");
    push_decimal(&mut r, p.extens.len() as u64);
    push_str(&mut r, ") and which can be a datafrog `Relation`:\n");
    let ghost head = r@;
    let mut k: usize = 0;
    while k < ext.len()
        invariant
            k <= ext.len(),
            es == char_seqs(ext@),
            r@ == head + ext_report_lines(es, k as int),
        decreases ext.len() - k,
    {
        let empty: Vec<char> = Vec::new();
        proof {
            assert(empty@ =~= seq![]);
            assert(es[k as int] == ext@[k as int]@);
        }
        push_numbered_line(&mut r, k, &ext[k], &empty);
        k = k + 1;
    }
    r.push('\n');
    push_decimal(&mut r, p.intens.len() as u64);
    push_str(&mut r, " intensional predicates (including ");
    push_decimal(&mut r, p.int_keys.len() as u64);
    push_str(&mut r, " indices) requiring a datafrog `Variable`:\n");
    let ghost mid = r@;
    let mut k: usize = 0;
    while k < ints.len()
        invariant
            k <= ints.len(),
            is == char_seqs(ints@),
            p.wf(),
            r@ == mid + int_report_lines(p@, is, k as int),
        decreases ints.len() - k,
    {
        let note = index_note_of(p, &ints[k]);
        proof {
            assert(is[k as int] == ints@[k as int]@);
        }
        push_numbered_line(&mut r, k, &ints[k], &note);
        k = k + 1;
    }
    proof {
        assert(r@ =~= report_text(p@, t@));
    }
    r
}

/// The declared types of a relation, separated by `", "` (see [`relation_types`]).
fn relation_types_of(ad: &Vec<ArgDecl>) -> (r: Vec<char>)
    ensures
        r@ == relation_types(arg_decls_view(ad@)),
{
    let ghost v = arg_decls_view(ad@);
    let mut ts: Vec<Vec<char>> = Vec::new();
    let mut i: usize = 0;
    while i < ad.len()
        invariant
            i <= ad.len(),
            v == arg_decls_view(ad@),
            char_seqs(ts@) == v.take(i as int).map_values(|x: (Seq<char>, Seq<char>)| x.1),
        decreases ad.len() - i,
    {
        let ghost before = ts@;
        push_line(&mut ts, copy_of(&ad[i].rust_type));
        proof {
            assert(v.take(i + 1).map_values(|x: (Seq<char>, Seq<char>)| x.1) =~= v.take(i as int).map_values(
                |x: (Seq<char>, Seq<char>)| x.1,
            ).push(ad@[i as int].rust_type@));
        }
        i = i + 1;
    }
    assert(v.take(ad.len() as int) =~= v);
    let mut r: Vec<char> = Vec::new();
    push_joined(&mut r, &ts, &comma_space_vec());
    assert(r@ =~= relation_types(v));
    r
}

/// The declared names of a relation.
fn relation_names_of(ad: &Vec<ArgDecl>) -> (r: Vec<Vec<char>>)
    ensures
        char_seqs(r@) == arg_decls_view(ad@).map_values(|x: (Seq<char>, Seq<char>)| x.0),
{
    let ghost v = arg_decls_view(ad@);
    let mut ns: Vec<Vec<char>> = Vec::new();
    let mut i: usize = 0;
    while i < ad.len()
        invariant
            i <= ad.len(),
            v == arg_decls_view(ad@),
            char_seqs(ns@) == v.take(i as int).map_values(|x: (Seq<char>, Seq<char>)| x.0),
        decreases ad.len() - i,
    {
        push_line(&mut ns, copy_of(&ad[i].name));
        proof {
            assert(v.take(i + 1).map_values(|x: (Seq<char>, Seq<char>)| x.0) =~= v.take(i as int).map_values(
                |x: (Seq<char>, Seq<char>)| x.0,
            ).push(ad@[i as int].name@));
        }
        i = i + 1;
    }
    assert(v.take(ad.len() as int) =~= v);
    ns
}

/// The types `t`, wrapped as a key where `name` is consumed as a key (see [`wrap_key`]).
fn wrap_key_of(consumed: &Vec<Vec<char>>, name: &Vec<char>, t: Vec<char>) -> (r: Vec<char>)
    ensures
        r@ == wrap_key(char_seqs(consumed@), name@, t@),
{
    if has_name(consumed, name) {
        let mut r = one_char('(');
        push_chars(&mut r, &t);
        push_str(&mut r, "), ()");
        r
    } else {
        t
    }
}

/// Appends the code that creates an extensional relation (see [`ext_decl_text`]).
fn push_ext_decl(out: &mut Vec<char>, d: &Decls, p: &Plan, rel: &Vec<char>)
    requires
        d.wf(),
        p.wf(),
        ext_decl_ok(d@, p@, rel@),
    ensures
        final(out)@ == old(out)@ + ext_decl_text(d@, p@, rel@),
{
    proof {
        lemma_first_at(char_seqs(d.preds@), rel@);
        lemma_first_at(char_seqs(p.ext_keys@), rel@);
    }
    match find_name(&d.preds, rel) {
        Some(j) => {
            proof {
                assert(d@.args[j as int] == arg_decls_view(d.args@[j as int]@));
            }
            let types = wrap_key_of(&p.consumed, rel, relation_types_of(&d.args[j]));
            push_str(out, "let ");
            push_chars(out, rel);
            push_str(out, ": Relation<(");
            push_chars(out, &types);
            push_str(out, ")> = Vec::new().into();\n");
        },
        None => {
            let e = find_name(&p.ext_keys, rel).unwrap();
            proof {
                assert(p@.ext_vals[e as int] == p.ext_vals@[e as int]@);
            }
            let types = wrap_key_of(&p.consumed, rel, copy_of(&p.ext_vals[e].1));
            push_str(out, "\n// Note: `");
            push_chars(out, rel);
            push_str(out, "` is an indexed version of the input facts `");
            push_chars(out, &p.ext_vals[e].0);
            push_str(out, "`\n");
            push_str(out, "let ");
            push_chars(out, rel);
            push_str(out, ": Relation<(");
            push_chars(out, &types);
            push_str(out, ")> = Vec::new().into();\n\n");
        },
    }
    proof {
        assert(final(out)@ =~= old(out)@ + ext_decl_text(d@, p@, rel@));
    }
}

/// Appends the code that creates an intensional variable (see [`int_decl_text`]).
fn push_int_decl(out: &mut Vec<char>, d: &Decls, p: &Plan, v: &Vec<char>)
    requires
        d.wf(),
        p.wf(),
        int_decl_ok(d@, p@, v@),
    ensures
        final(out)@ == old(out)@ + int_decl_text(d@, p@, v@),
{
    proof {
        lemma_first_at(char_seqs(d.preds@), v@);
        lemma_first_at(char_seqs(p.int_keys@), v@);
    }
    let dbg = debug_str(v);
    match find_name(&d.preds, v) {
        Some(j) => {
            proof {
                assert(d@.args[j as int] == arg_decls_view(d.args@[j as int]@));
            }
            let types = wrap_key_of(&p.consumed, v, relation_types_of(&d.args[j]));
            push_str(out, "let ");
            push_chars(out, v);
            push_str(out, " = iteration.variable::<(");
            push_chars(out, &types);
            push_str(out, ")>(");
            push_chars(out, &dbg);
            push_str(out, ");\n");
        },
        None => match find_name(&p.int_keys, v) {
            Some(i) => {
                let ix = &p.int_vals[i];
                let ghost iv = p@.int_vals[i as int];
                proof {
                    assert(iv == ix@);
                    assert forall|j: int| 0 <= j < ix.key.len() implies find_arg_decl(
                        d@,
                        ix.pred@,
                        char_seqs(ix.lit_args@),
                        #[trigger] char_seqs(ix.key@)[j],
                    ) is Some by {
                        assert((iv.key + iv.args)[j] == iv.key[j]);
                    }
                    assert forall|j: int| 0 <= j < ix.args.len() implies find_arg_decl(
                        d@,
                        ix.pred@,
                        char_seqs(ix.lit_args@),
                        #[trigger] char_seqs(ix.args@)[j],
                    ) is Some by {
                        assert((iv.key + iv.args)[iv.key.len() + j] == iv.args[j]);
                    }
                }
                let kt = canon_types_of(d, &ix.pred, &ix.lit_args, &ix.key);
                let at = canon_types_of(d, &ix.pred, &ix.lit_args, &ix.args);
                let types = wrap_key_of(&p.consumed, v, join_types_of(&kt, &at));
                push_str(out, "\n// Note: `");
                push_chars(out, v);
                push_str(out, "` is an indexed version of the `");
                push_chars(out, &ix.pred);
                push_str(out, "` relation\n");
                push_str(out, "let ");
                push_chars(out, v);
                push_str(out, " = iteration.variable::<(");
                push_chars(out, &types);
                push_str(out, ")>(");
                push_chars(out, &dbg);
                push_str(out, ");\n");
            },
            None => {
                push_str(out, "let ");
                push_chars(out, v);
                push_str(out, " = iteration.variable(");
                push_chars(out, &dbg);
                push_str(out, ");\n");
            },
        },
    }
    proof {
        assert(final(out)@ =~= old(out)@ + int_decl_text(d@, p@, v@));
    }
}

/// Appends the line of code that maintains the index `name` (see [`maintenance_line`]).
fn push_maintenance_line(out: &mut Vec<char>, d: &Decls, p: &Plan, name: &Vec<char>)
    requires
        d.wf(),
        p.wf(),
        char_seqs(p.int_keys@).contains(name@),
        maintenance_ok(d@, p@, name@),
    ensures
        final(out)@ == old(out)@ + maintenance_line(d@, p@, name@),
{
    proof {
        lemma_first_at(char_seqs(p.int_keys@), name@);
    }
    let i = find_name(&p.int_keys, name).unwrap();
    let ix = &p.int_vals[i];
    proof {
        assert(p@.int_vals[i as int] == ix@);
        lemma_first_at(char_seqs(d.preds@), ix.pred@);
    }
    let j = find_name(&d.preds, &ix.pred).unwrap();
    proof {
        assert(d@.args[j as int] == arg_decls_view(d.args@[j as int]@));
    }
    let names = relation_names_of(&d.args[j]);
    push_str(out, "    ");
    push_chars(out, name);
    push_str(out, ".from_map(&");
    push_chars(out, &ix.pred);
    push_str(out, ", |&");
    push_chars(out, &args_tuple_of(&names, &ix.key, &ix.args));
    push_str(out, "| (");
    push_chars(out, &args_tuple_of(&ix.key, &ix.key, &ix.args));
    push_chars(out, &comma_space_vec());
    push_chars(out, &args_tuple_of(&ix.args, &ix.key, &ix.args));
    push_str(out, "));\n");
    proof {
        assert(final(out)@ =~= old(out)@ + maintenance_line(d@, p@, name@));
    }
}

/// Appends the code that creates each extensional relation of `rels`.
fn push_ext_decls(out: &mut Vec<char>, d: &Decls, p: &Plan, rels: &Vec<Vec<char>>)
    requires
        d.wf(),
        p.wf(),
        forall|j: int| 0 <= j < rels.len() ==> ext_decl_ok(d@, p@, #[trigger] char_seqs(rels@)[j]),
    ensures
        final(out)@ == old(out)@ + concat(char_seqs(rels@).map_values(|r: Seq<char>| ext_decl_text(d@, p@, r))),
{
    let ghost es = char_seqs(rels@);
    let ghost e_map = es.map_values(|r: Seq<char>| ext_decl_text(d@, p@, r));
    let ghost g = out@;
    let mut k: usize = 0;
    while k < rels.len()
        invariant
            k <= rels.len(),
            d.wf(),
            p.wf(),
            es == char_seqs(rels@),
            forall|j: int| 0 <= j < es.len() ==> ext_decl_ok(d@, p@, #[trigger] es[j]),
            e_map == es.map_values(|r: Seq<char>| ext_decl_text(d@, p@, r)),
            out@ == g + concat(e_map.take(k as int)),
        decreases rels.len() - k,
    {
        proof {
            assert(es[k as int] == rels@[k as int]@);
            lemma_concat_step(e_map, k as int);
        }
        push_ext_decl(out, d, p, &rels[k]);
        k = k + 1;
    }
    proof {
        assert(e_map.take(rels.len() as int) =~= e_map);
    }
}

/// Appends the code that creates each intensional variable of `vars`.
fn push_int_decls(out: &mut Vec<char>, d: &Decls, p: &Plan, vars: &Vec<Vec<char>>)
    requires
        d.wf(),
        p.wf(),
        forall|j: int| 0 <= j < vars.len() ==> int_decl_ok(d@, p@, #[trigger] char_seqs(vars@)[j]),
    ensures
        final(out)@ == old(out)@ + concat(char_seqs(vars@).map_values(|v: Seq<char>| int_decl_text(d@, p@, v))),
{
    let ghost is = char_seqs(vars@);
    let ghost i_map = is.map_values(|v: Seq<char>| int_decl_text(d@, p@, v));
    let ghost g = out@;
    let mut k: usize = 0;
    while k < vars.len()
        invariant
            k <= vars.len(),
            d.wf(),
            p.wf(),
            is == char_seqs(vars@),
            forall|j: int| 0 <= j < is.len() ==> int_decl_ok(d@, p@, #[trigger] is[j]),
            i_map == is.map_values(|v: Seq<char>| int_decl_text(d@, p@, v)),
            out@ == g + concat(i_map.take(k as int)),
        decreases vars.len() - k,
    {
        proof {
            assert(is[k as int] == vars@[k as int]@);
            lemma_concat_step(i_map, k as int);
        }
        push_int_decl(out, d, p, &vars[k]);
        k = k + 1;
    }
    proof {
        assert(i_map.take(vars.len() as int) =~= i_map);
    }
}

/// Appends each line of `lines`, with a line break after it.
fn push_lines(out: &mut Vec<char>, lines: &Vec<Vec<char>>)
    ensures
        final(out)@ == old(out)@ + concat(char_seqs(lines@).map_values(|l: Seq<char>| l + seq!['\n'])),
{
    let ghost ss = char_seqs(lines@);
    let ghost s_map = ss.map_values(|l: Seq<char>| l + seq!['\n']);
    let ghost g = out@;
    let mut k: usize = 0;
    while k < lines.len()
        invariant
            k <= lines.len(),
            ss == char_seqs(lines@),
            s_map == ss.map_values(|l: Seq<char>| l + seq!['\n']),
            out@ == g + concat(s_map.take(k as int)),
        decreases lines.len() - k,
    {
        proof {
            lemma_concat_step(s_map, k as int);
        }
        push_chars(out, &lines[k]);
        out.push('\n');
        proof {
            assert(s_map[k as int] == lines@[k as int]@ + seq!['\n']);
        }
        k = k + 1;
    }
    proof {
        assert(s_map.take(lines.len() as int) =~= s_map);
    }
}

/// Appends each line of `lines`, indented, with a line break after it.
fn push_indented_lines(out: &mut Vec<char>, lines: &Vec<Vec<char>>)
    ensures
        final(out)@ == old(out)@ + concat(char_seqs(lines@).map_values(|l: Seq<char>| "    "@ + l + seq!['\n'])),
{
    let ghost ds = char_seqs(lines@);
    let ghost d_map = ds.map_values(|l: Seq<char>| "    "@ + l + seq!['\n']);
    let ghost g = out@;
    let mut k: usize = 0;
    while k < lines.len()
        invariant
            k <= lines.len(),
            ds == char_seqs(lines@),
            d_map == ds.map_values(|l: Seq<char>| "    "@ + l + seq!['\n']),
            out@ == g + concat(d_map.take(k as int)),
        decreases lines.len() - k,
    {
        proof {
            lemma_concat_step(d_map, k as int);
        }
        push_str(out, "    ");
        push_chars(out, &lines[k]);
        out.push('\n');
        proof {
            assert(d_map[k as int] == "    "@ + lines@[k as int]@ + seq!['\n']);
        }
        k = k + 1;
    }
    proof {
        assert(d_map.take(lines.len() as int) =~= d_map);
    }
}

/// Appends the maintenance of the indices `order`, in that order.
fn push_maintenance(out: &mut Vec<char>, d: &Decls, p: &Plan, order: &Vec<Vec<char>>)
    requires
        d.wf(),
        p.wf(),
        forall|k: int|
            0 <= k < order.len() ==> p@.int_keys.contains(#[trigger] char_seqs(order@)[k]) && maintenance_ok(
                d@,
                p@,
                char_seqs(order@)[k],
            ),
    ensures
        final(out)@ == old(out)@ + concat(char_seqs(order@).map_values(|n: Seq<char>| maintenance_line(d@, p@, n))),
{
    let ghost os = char_seqs(order@);
    let ghost m_map = os.map_values(|n: Seq<char>| maintenance_line(d@, p@, n));
    let ghost g = out@;
    let mut k: usize = 0;
    while k < order.len()
        invariant
            k <= order.len(),
            d.wf(),
            p.wf(),
            os == char_seqs(order@),
            forall|j: int| 0 <= j < order.len() ==> p@.int_keys.contains(#[trigger] os[j]) && maintenance_ok(d@, p@, os[j]),
            m_map == os.map_values(|n: Seq<char>| maintenance_line(d@, p@, n)),
            out@ == g + concat(m_map.take(k as int)),
        decreases order.len() - k,
    {
        proof {
            assert(os[k as int] == order@[k as int]@);
            lemma_concat_step(m_map, k as int);
        }
        push_maintenance_line(out, d, p, &order[k]);
        k = k + 1;
    }
    proof {
        assert(m_map.take(order.len() as int) =~= m_map);
    }
}

/// Appends the code that makes or completes the output relation (see [`output_head`] and
/// [`output_tail`]).
fn push_output_part(out: &mut Vec<char>, cands: &Vec<Vec<char>>, head: bool)
    ensures
        final(out)@ == old(out)@ + (if head { output_head(char_seqs(cands@)) } else { output_tail(char_seqs(cands@)) }),
{
    let ghost cs = char_seqs(cands@);
    if cands.len() == 1 {
        proof {
            assert(cs[0] == cands@[0]@);
        }
        if head {
            push_str(out, "// `");
            push_chars(out, &cands[0]);
            push_str(out, "` inferred as the output relation\n");
            push_str(out, "let ");
            push_chars(out, &cands[0]);
            push_str(out, " = {\n");
        } else {
            out.push('\n');
            push_chars(out, &cands[0]);
            push_str(out, ".complete()\n");
            push_str(out, "};\n");
        }
    } else if head {
        push_str(out, "// Note: couldn't infer output relation automatically\n");
    }
    proof {
        if head {
            assert(final(out)@ =~= old(out)@ + output_head(cs));
        } else {
            assert(final(out)@ =~= old(out)@ + output_tail(cs));
        }
    }
}

/// Appends the skeleton code, the indices maintained in the order `order` (see
/// [`code_text`]).
fn write_code(out: &mut Vec<char>, d: &Decls, p: &Plan, t: &Texts, order: &Vec<Vec<char>>)
    requires
        d.wf(),
        p.wf(),
        forall|k: int|
            0 <= k < sort_strs(t@.ext_inputs).len() ==> ext_decl_ok(d@, p@, #[trigger] sort_strs(t@.ext_inputs)[k]),
        forall|k: int| 0 <= k < sort_strs(p@.intens).len() ==> int_decl_ok(d@, p@, #[trigger] sort_strs(p@.intens)[k]),
        forall|k: int|
            0 <= k < order.len() ==> p@.int_keys.contains(#[trigger] char_seqs(order@)[k]) && maintenance_ok(
                d@,
                p@,
                char_seqs(order@)[k],
            ),
    ensures
        final(out)@ == old(out)@ + code_text(d@, p@, t@, char_seqs(order@)),
{
    let ext = sorted_names(&t.ext_inputs);
    let ints = sorted_names(&p.intens);
    let cands = names_not_in(&p.intens, &t.int_inputs);
    let ghost es = char_seqs(ext@);
    let ghost is = char_seqs(ints@);
    let ghost cs = char_seqs(cands@);
    let ghost start = out@;
    let ghost mut acc: Seq<char> = seq![];
    push_str(out, "\n// Extensional predicates, and their indices\n\n");
    proof {
        acc = acc + "\n// Extensional predicates, and their indices\n\n"@;
        assert(out@ =~= start + acc);
        assert forall|j: int| 0 <= j < ext.len() implies ext_decl_ok(d@, p@, #[trigger] char_seqs(ext@)[j]) by {
            assert(es[j] == sort_strs(t@.ext_inputs)[j]);
        }
    }
    push_ext_decls(out, d, p, &ext);
    proof {
        acc = acc + concat(es.map_values(|r: Seq<char>| ext_decl_text(d@, p@, r)));
        assert(out@ =~= start + acc);
    }
    out.push('\n');
    proof {
        acc = acc + seq!['\n'];
        assert(out@ =~= start + acc);
    }
    push_output_part(out, &cands, true);
    proof {
        acc = acc + output_head(cs);
        assert(out@ =~= start + acc);
    }
    push_str(out, "\nlet mut iteration = Iteration::new();");
    proof {
        acc = acc + "\nlet mut iteration = Iteration::new();"@;
        assert(out@ =~= start + acc);
    }
    push_str(out, "\n// Intensional predicates, and their indices\n\n");
    proof {
        acc = acc + "\n// Intensional predicates, and their indices\n\n"@;
        assert(out@ =~= start + acc);
        assert forall|j: int| 0 <= j < ints.len() implies int_decl_ok(d@, p@, #[trigger] char_seqs(ints@)[j]) by {
            assert(is[j] == sort_strs(p@.intens)[j]);
        }
    }
    push_int_decls(out, d, p, &ints);
    proof {
        acc = acc + concat(is.map_values(|v: Seq<char>| int_decl_text(d@, p@, v)));
        assert(out@ =~= start + acc);
    }
    out.push('\n');
    proof {
        acc = acc + seq!['\n'];
        assert(out@ =~= start + acc);
    }
    push_lines(out, &t.statics);
    proof {
        acc = acc + concat(t@.statics.map_values(|l: Seq<char>| l + seq!['\n']));
        assert(out@ =~= start + acc);
    }
    push_str(out, "while iteration.changed() {\n");
    proof {
        acc = acc + "while iteration.changed() {\n"@;
        assert(out@ =~= start + acc);
    }
    push_str(out, "\n    // Index maintenance\n");
    proof {
        acc = acc + "\n    // Index maintenance\n"@;
        assert(out@ =~= start + acc);
    }
    push_maintenance(out, d, p, order);
    proof {
        acc = acc + concat(char_seqs(order@).map_values(|n: Seq<char>| maintenance_line(d@, p@, n)));
        assert(out@ =~= start + acc);
    }
    push_str(out, "\n    // Rules\n\n");
    proof {
        acc = acc + "\n    // Rules\n\n"@;
        assert(out@ =~= start + acc);
    }
    push_indented_lines(out, &t.dynamic);
    proof {
        acc = acc + concat(t@.dynamic.map_values(|l: Seq<char>| "    "@ + l + seq!['\n']));
        assert(out@ =~= start + acc);
    }
    push_str(out, "}\n");
    proof {
        acc = acc + "}\n"@;
        assert(out@ =~= start + acc);
    }
    push_output_part(out, &cands, false);
    proof {
        acc = acc + output_tail(cs);
        assert(out@ =~= start + acc);
        assert(acc =~= code_text(d@, p@, t@, char_seqs(order@)));
    }
}

/// Generates a skeleton datafrog computation of the datalog rules `text`, whose relations are
/// declared in `decls`, and appends it to `output`: the `Relation`s of the extensional
/// predicates used and of their indices, the `Variable`s of the intensional ones and of their
/// indices, the data loaded before the loop, the maintenance of the indices, and the
/// operations of each rule. The report it returns lists, sorted, the extensional predicates
/// and indices used and the intensional predicates. The indices are maintained in the order in
/// which an `FxHashMap` of their names is walked.
pub fn generate_skeleton_datafrog(decls: &str, text: &str, output: &mut String) -> (report: String)
    requires
        skeleton_ok(decls@, text@),
    ensures
        report@ == report_text(skeleton_plan(decls@, text@).0, skeleton_lines(decls@, text@)),
        exists|order: Seq<Seq<char>>|
            {
                &&& order.no_duplicates()
                &&& order.to_set() == skeleton_plan(decls@, text@).0.int_keys.to_set()
                &&& final(output)@ == old(output)@ + code_text(
                    decls_of(decls@),
                    skeleton_plan(decls@, text@).0,
                    skeleton_lines(decls@, text@),
                    order,
                )
            },
{
    let d = parse_declarations(decls);
    let program = clean_program(string_of(&chars_of(text)));
    let rules = parse(program.as_str());
    proof {
        assert(rules_view(rules@) == rules_of(clean(text@)));
        assert(analysis(d@, rules_view(rules@), rules.len() as int) == skeleton_plan(decls@, text@));
    }
    let (plan, ops) = analyze(&d, &rules);
    let t = write_rules(&rules, &ops, &plan, Ghost(d@));
    proof {
        assert(plan@ == skeleton_plan(decls@, text@).0);
        assert(t@ == skeleton_lines(decls@, text@));
    }
    let report = report_of(&plan, &t);
    let order = fx_names_in_order(&plan.index_names);
    let ghost os = char_seqs(order@);
    proof {
        assert forall|k: int| 0 <= k < order.len() implies plan@.int_keys.contains(#[trigger] os[k]) by {
            assert(os.to_set().contains(os[k]));
        }
    }
    let mut code: Vec<char> = Vec::new();
    write_code(&mut code, &d, &plan, &t, &order);
    let ghost start = output@;
    let mut i: usize = 0;
    while i < code.len()
        invariant
            i <= code.len(),
            output@ == start + code@.take(i as int),
        decreases code.len() - i,
    {
        string_push(output, code[i]);
        proof {
            assert(code@.take(i + 1) =~= code@.take(i as int).push(code@[i as int]));
        }
        i = i + 1;
    }
    proof {
        assert(code@.take(code.len() as int) =~= code@);
        assert(code@ =~= seq![] + code_text(d@, plan@, t@, os));
    }
    string_of(&report)
}

} // verus!
