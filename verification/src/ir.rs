//! The intermediate representation of a fact program, as the parser produces it.

use vstd::prelude::*;

verus! {

/// A parsed fact program.
#[derive(Debug)]
pub struct Input {
    pub placeholders: Vec<Placeholder>,
    pub known_subsets: Vec<KnownSubset>,
    pub blocks: Vec<Block>,
    pub use_of_var_derefs_origin: Vec<(String, String)>,
    pub drop_of_var_derefs_origin: Vec<(String, String)>,
    pub child_path: Vec<(String, String)>,
    pub path_is_var: Vec<(String, String)>,
}

/// A basic block: its name, its statements, and the blocks it jumps to.
#[derive(Debug)]
pub struct Block {
    pub name: String,
    pub statements: Vec<Statement>,
    pub goto: Vec<String>,
}

/// A statement of a block.
#[derive(Debug)]
pub struct Statement {
    /// Effects destined to be emitted at the Statement's Start point
    pub effects_start: Vec<Effect>,
    /// Effects destined to be emitted at the Statement's Mid point
    pub effects: Vec<Effect>,
}

/// What a statement does: use some origins, or state a fact.
#[derive(Debug, PartialEq)]
pub enum Effect {
    Use { origins: Vec<String> },
    Fact(Fact),
}

/// A fact stated by a statement.
#[derive(Debug, PartialEq)]
pub enum Fact {
    Outlives { a: String, b: String },
    BorrowRegionAt { origin: String, loan: String },
    Invalidates { loan: String },
    Kill { loan: String },
    OriginLiveOnEntry { origin: String },
    DefineVariable { variable: String },
    UseVariable { variable: String },
    PathMovedAtBase { path: String },
    PathAssignedAtBase { path: String },
    PathAccessedAtBase { path: String },
}

/// A known subset relation `a: b` between two placeholder origins.
#[derive(Debug, PartialEq)]
pub struct KnownSubset {
    pub a: String,
    pub b: String,
}

/// A placeholder origin, with its placeholder loan.
#[derive(Debug, PartialEq)]
pub struct Placeholder {
    pub origin: String,
    pub loan: String,
}

/// The abstract value of a [`Fact`]: names as character sequences.
pub enum FactV {
    Outlives { a: Seq<char>, b: Seq<char> },
    BorrowRegionAt { origin: Seq<char>, loan: Seq<char> },
    Invalidates { loan: Seq<char> },
    Kill { loan: Seq<char> },
    OriginLiveOnEntry { origin: Seq<char> },
    DefineVariable { variable: Seq<char> },
    UseVariable { variable: Seq<char> },
    PathMovedAtBase { path: Seq<char> },
    PathAssignedAtBase { path: Seq<char> },
    PathAccessedAtBase { path: Seq<char> },
}

/// The abstract value of an [`Effect`].
pub enum EffectV {
    Use { origins: Seq<Seq<char>> },
    Fact(FactV),
}

/// The abstract value of a [`Statement`].
pub struct StatementV {
    pub effects_start: Seq<EffectV>,
    pub effects: Seq<EffectV>,
}

/// The abstract value of a [`Block`].
pub struct BlockV {
    pub name: Seq<char>,
    pub statements: Seq<StatementV>,
    pub goto: Seq<Seq<char>>,
}

/// The abstract value of an [`Input`]; placeholders and known subsets are pairs of names.
pub struct InputV {
    pub placeholders: Seq<(Seq<char>, Seq<char>)>,
    pub known_subsets: Seq<(Seq<char>, Seq<char>)>,
    pub blocks: Seq<BlockV>,
    pub use_of_var_derefs_origin: Seq<(Seq<char>, Seq<char>)>,
    pub drop_of_var_derefs_origin: Seq<(Seq<char>, Seq<char>)>,
    pub child_path: Seq<(Seq<char>, Seq<char>)>,
    pub path_is_var: Seq<(Seq<char>, Seq<char>)>,
}

/// The characters of each string.
pub open spec fn strs_view(v: Seq<String>) -> Seq<Seq<char>> {
    v.map_values(|s: String| s@)
}

/// The characters of each pair of strings.
pub open spec fn pairs_view(v: Seq<(String, String)>) -> Seq<(Seq<char>, Seq<char>)> {
    v.map_values(|p: (String, String)| (p.0@, p.1@))
}

impl View for Fact {
    type V = FactV;

    open spec fn view(&self) -> FactV {
        match self {
            Fact::Outlives { a, b } => FactV::Outlives { a: a@, b: b@ },
            Fact::BorrowRegionAt { origin, loan } => FactV::BorrowRegionAt { origin: origin@, loan: loan@ },
            Fact::Invalidates { loan } => FactV::Invalidates { loan: loan@ },
            Fact::Kill { loan } => FactV::Kill { loan: loan@ },
            Fact::OriginLiveOnEntry { origin } => FactV::OriginLiveOnEntry { origin: origin@ },
            Fact::DefineVariable { variable } => FactV::DefineVariable { variable: variable@ },
            Fact::UseVariable { variable } => FactV::UseVariable { variable: variable@ },
            Fact::PathMovedAtBase { path } => FactV::PathMovedAtBase { path: path@ },
            Fact::PathAssignedAtBase { path } => FactV::PathAssignedAtBase { path: path@ },
            Fact::PathAccessedAtBase { path } => FactV::PathAccessedAtBase { path: path@ },
        }
    }
}

impl View for Effect {
    type V = EffectV;

    open spec fn view(&self) -> EffectV {
        match self {
            Effect::Use { origins } => EffectV::Use { origins: strs_view(origins@) },
            Effect::Fact(f) => EffectV::Fact(f@),
        }
    }
}

/// The abstract values of some effects.
pub open spec fn effects_view(v: Seq<Effect>) -> Seq<EffectV> {
    v.map_values(|e: Effect| e@)
}

impl View for Statement {
    type V = StatementV;

    open spec fn view(&self) -> StatementV {
        StatementV {
            effects_start: effects_view(self.effects_start@),
            effects: effects_view(self.effects@),
        }
    }
}

/// The abstract values of some statements.
pub open spec fn statements_view(v: Seq<Statement>) -> Seq<StatementV> {
    v.map_values(|s: Statement| s@)
}

impl View for Block {
    type V = BlockV;

    open spec fn view(&self) -> BlockV {
        BlockV {
            name: self.name@,
            statements: statements_view(self.statements@),
            goto: strs_view(self.goto@),
        }
    }
}

/// The abstract values of some blocks.
pub open spec fn blocks_view(v: Seq<Block>) -> Seq<BlockV> {
    v.map_values(|b: Block| b@)
}

impl View for KnownSubset {
    type V = (Seq<char>, Seq<char>);

    open spec fn view(&self) -> (Seq<char>, Seq<char>) {
        (self.a@, self.b@)
    }
}

impl View for Placeholder {
    type V = (Seq<char>, Seq<char>);

    open spec fn view(&self) -> (Seq<char>, Seq<char>) {
        (self.origin@, self.loan@)
    }
}

/// The abstract values of some known subsets.
pub open spec fn known_subsets_view(v: Seq<KnownSubset>) -> Seq<(Seq<char>, Seq<char>)> {
    v.map_values(|k: KnownSubset| k@)
}

/// The abstract values of some placeholders.
pub open spec fn placeholders_view(v: Seq<Placeholder>) -> Seq<(Seq<char>, Seq<char>)> {
    v.map_values(|p: Placeholder| p@)
}

impl View for Input {
    type V = InputV;

    open spec fn view(&self) -> InputV {
        InputV {
            placeholders: placeholders_view(self.placeholders@),
            known_subsets: known_subsets_view(self.known_subsets@),
            blocks: blocks_view(self.blocks@),
            use_of_var_derefs_origin: pairs_view(self.use_of_var_derefs_origin@),
            drop_of_var_derefs_origin: pairs_view(self.drop_of_var_derefs_origin@),
            child_path: pairs_view(self.child_path@),
            path_is_var: pairs_view(self.path_is_var@),
        }
    }
}

/// A copy of the strings of `v`.
fn clone_strings(v: &Vec<String>) -> (r: Vec<String>)
    ensures
        strs_view(r@) == strs_view(v@),
{
    let mut r: Vec<String> = Vec::new();
    let mut i: usize = 0;
    while i < v.len()
        invariant
            i <= v@.len(),
            strs_view(r@) =~= strs_view(v@.take(i as int)),
        decreases v@.len() - i,
    {
        let ghost old_r = r@;
        r.push(v[i].clone());
        proof {
            assert(v@.take(i + 1) =~= v@.take(i as int).push(v@[i as int]));
            assert(strs_view(r@) =~= strs_view(old_r).push(v@[i as int]@));
            assert(strs_view(v@.take(i + 1)) =~= strs_view(v@.take(i as int)).push(v@[i as int]@));
        }
        i = i + 1;
    }
    proof {
        assert(v@.take(v@.len() as int) =~= v@);
    }
    r
}

impl Fact {
    /// A copy of this fact.
    pub fn duplicate(&self) -> (r: Fact)
        ensures
            r@ == self@,
    {
        match self {
            Fact::Outlives { a, b } => Fact::Outlives { a: a.clone(), b: b.clone() },
            Fact::BorrowRegionAt { origin, loan } => Fact::BorrowRegionAt { origin: origin.clone(), loan: loan.clone() },
            Fact::Invalidates { loan } => Fact::Invalidates { loan: loan.clone() },
            Fact::Kill { loan } => Fact::Kill { loan: loan.clone() },
            Fact::OriginLiveOnEntry { origin } => Fact::OriginLiveOnEntry { origin: origin.clone() },
            Fact::DefineVariable { variable } => Fact::DefineVariable { variable: variable.clone() },
            Fact::UseVariable { variable } => Fact::UseVariable { variable: variable.clone() },
            Fact::PathMovedAtBase { path } => Fact::PathMovedAtBase { path: path.clone() },
            Fact::PathAssignedAtBase { path } => Fact::PathAssignedAtBase { path: path.clone() },
            Fact::PathAccessedAtBase { path } => Fact::PathAccessedAtBase { path: path.clone() },
        }
    }
}

impl Effect {
    /// A copy of this effect.
    pub fn duplicate(&self) -> (r: Effect)
        ensures
            r@ == self@,
    {
        match self {
            Effect::Use { origins } => Effect::Use { origins: clone_strings(origins) },
            Effect::Fact(f) => Effect::Fact(f.duplicate()),
        }
    }
}

/// Whether an effect states that an origin is live on entry.
pub open spec fn is_live_on_entry(e: EffectV) -> bool {
    e matches EffectV::Fact(FactV::OriginLiveOnEntry { .. })
}

/// The effects of `es` that state that an origin is live on entry, in order.
pub open spec fn live_on_entry_effects(es: Seq<EffectV>) -> Seq<EffectV>
    decreases es.len(),
{
    if es.len() == 0 {
        seq![]
    } else if is_live_on_entry(es.last()) {
        live_on_entry_effects(es.drop_last()).push(es.last())
    } else {
        live_on_entry_effects(es.drop_last())
    }
}

impl Statement {
    /// A statement with the given mid-point effects. Anything live on entry to the mid point
    /// is also live on entry to the start point: the start-point effects are the effects
    /// that state an origin live on entry.
    pub fn new(effects: Vec<Effect>) -> (r: Statement)
        ensures
            r@.effects == effects_view(effects@),
            r@.effects_start == live_on_entry_effects(effects_view(effects@)),
    {
        let mut effects_start: Vec<Effect> = Vec::new();
        let mut i: usize = 0;
        while i < effects.len()
            invariant
                i <= effects@.len(),
                effects_view(effects_start@) =~= live_on_entry_effects(effects_view(effects@.take(i as int))),
            decreases effects@.len() - i,
        {
            proof {
                assert(effects_view(effects@.take(i + 1)).drop_last() =~= effects_view(effects@.take(i as int)));
                assert(effects_view(effects@.take(i + 1)).last() == effects@[i as int]@);
            }
            match &effects[i] {
                Effect::Fact(Fact::OriginLiveOnEntry { .. }) => {
                    let e = effects[i].duplicate();
                    effects_start.push(e);
                },
                _ => {},
            }
            i = i + 1;
        }
        proof {
            assert(effects@.take(effects@.len() as int) =~= effects@);
        }
        Statement { effects_start, effects }
    }
}

/// The placeholders for some origin names: each origin has a placeholder loan of the same
/// name.
pub open spec fn placeholders_for(names: Seq<Seq<char>>) -> Seq<(Seq<char>, Seq<char>)> {
    names.map_values(|n: Seq<char>| (n, n))
}

/// The pairs held by an optional list, or none.
pub open spec fn pairs_or_empty(o: Option<Vec<(String, String)>>) -> Seq<(Seq<char>, Seq<char>)> {
    match o {
        Some(v) => pairs_view(v@),
        None => seq![],
    }
}

impl Input {
    /// A program with the given parts; a missing list is empty. Each placeholder origin gets
    /// a placeholder loan of the same name.
    pub fn new(
        placeholders: Vec<String>,
        known_subsets: Option<Vec<KnownSubset>>,
        use_of_var_derefs_origin: Option<Vec<(String, String)>>,
        drop_of_var_derefs_origin: Option<Vec<(String, String)>>,
        child_path: Option<Vec<(String, String)>>,
        path_is_var: Option<Vec<(String, String)>>,
        blocks: Vec<Block>,
    ) -> (r: Input)
        ensures
            r@.placeholders == placeholders_for(strs_view(placeholders@)),
            r@.known_subsets == (match known_subsets {
                Some(v) => known_subsets_view(v@),
                None => seq![],
            }),
            r@.use_of_var_derefs_origin == pairs_or_empty(use_of_var_derefs_origin),
            r@.drop_of_var_derefs_origin == pairs_or_empty(drop_of_var_derefs_origin),
            r@.child_path == pairs_or_empty(child_path),
            r@.path_is_var == pairs_or_empty(path_is_var),
            r@.blocks == blocks_view(blocks@),
    {
        let mut ps: Vec<Placeholder> = Vec::new();
        let mut i: usize = 0;
        while i < placeholders.len()
            invariant
                i <= placeholders@.len(),
                placeholders_view(ps@) =~= placeholders_for(strs_view(placeholders@.take(i as int))),
            decreases placeholders@.len() - i,
        {
            let origin = placeholders[i].clone();
            let loan = origin.clone();
            let ghost old_ps = ps@;
            ps.push(Placeholder { loan, origin });
            proof {
                let pv = placeholders@[i as int]@;
                assert(placeholders@.take(i + 1) =~= placeholders@.take(i as int).push(placeholders@[i as int]));
                assert(placeholders_view(ps@) =~= placeholders_view(old_ps).push((pv, pv)));
                assert(strs_view(placeholders@.take(i + 1)) =~= strs_view(placeholders@.take(i as int)).push(pv));
                assert(placeholders_for(strs_view(placeholders@.take(i + 1))) =~= placeholders_for(
                    strs_view(placeholders@.take(i as int)),
                ).push((pv, pv)));
            }
            i = i + 1;
        }
        proof {
            assert(placeholders@.take(placeholders@.len() as int) =~= placeholders@);
        }
        Input {
            placeholders: ps,
            known_subsets: match known_subsets {
                Some(v) => v,
                None => Vec::new(),
            },
            use_of_var_derefs_origin: match use_of_var_derefs_origin {
                Some(v) => v,
                None => Vec::new(),
            },
            drop_of_var_derefs_origin: match drop_of_var_derefs_origin {
                Some(v) => v,
                None => Vec::new(),
            },
            child_path: match child_path {
                Some(v) => v,
                None => Vec::new(),
            },
            path_is_var: match path_is_var {
                Some(v) => v,
                None => Vec::new(),
            },
            blocks,
        }
    }
}

} // verus!
