use vstd::prelude::*;
use crate::model::{VarKind, VarSpecV, VariableSpec};
use crate::text::{trim, trim_spec};

verus! {

/// One resolved variable.
pub struct EnvEntry {
    pub key: String,
    pub value: String,
}

/// The map an entry list denotes: entries applied in order, a later entry
/// for a key overwriting an earlier one.
pub open spec fn map_of_entries(es: Seq<EnvEntry>) -> Map<Seq<char>, Seq<char>>
    decreases es.len(),
{
    if es.len() == 0 {
        Map::empty()
    } else {
        map_of_entries(es.drop_last()).insert(es.last().key@, es.last().value@)
    }
}

/// A resolved environment: key/value pairs in the order they were resolved,
/// viewed as a map in which the last entry for a key wins.
pub struct EnvMap {
    entries: Vec<EnvEntry>,
}

impl View for EnvMap {
    type V = Map<Seq<char>, Seq<char>>;

    closed spec fn view(&self) -> Map<Seq<char>, Seq<char>> {
        map_of_entries(self.entries@)
    }
}

impl EnvMap {
    /// The empty environment.
    pub fn new() -> (r: EnvMap)
        ensures
            r@ == Map::<Seq<char>, Seq<char>>::empty(),
    {
        EnvMap { entries: Vec::new() }
    }

    /// Binds `key` to `value`, overwriting any earlier binding.
    pub fn insert(&mut self, key: String, value: String)
        ensures
            final(self)@ == old(self)@.insert(key@, value@),
    {
        let ghost k = key@;
        let ghost v = value@;
        self.entries.push(EnvEntry { key, value });
        proof {
            assert(self.entries@.drop_last() =~= old(self).entries@);
            assert(self@ =~= old(self)@.insert(k, v));
        }
    }

    /// Looks a key up.
    pub fn get(&self, key: &String) -> (r: Option<&String>)
        ensures
            match r {
                Some(v) => self@.contains_key(key@) && v@ == self@[key@],
                None => !self@.contains_key(key@),
            },
    {
        let mut i: usize = self.entries.len();
        proof {
            assert(self.entries@.take(i as int) =~= self.entries@);
        }
        while i > 0
            invariant
                i <= self.entries@.len(),
                map_of_entries(self.entries@).contains_key(key@) == map_of_entries(
                    self.entries@.take(i as int),
                ).contains_key(key@),
                map_of_entries(self.entries@).contains_key(key@) ==> map_of_entries(
                    self.entries@.take(i as int),
                )[key@] == map_of_entries(self.entries@)[key@],
            decreases i,
        {
            proof {
                let t = self.entries@.take(i as int);
                assert(t.drop_last() =~= self.entries@.take(i as int - 1));
                assert(t.last() == self.entries@[i as int - 1]);
            }
            if self.entries[i - 1].key.eq(key) {
                return Some(&self.entries[i - 1].value);
            }
            i = i - 1;
        }
        proof {
            assert(self.entries@.take(0) =~= Seq::<EnvEntry>::empty());
        }
        None
    }

    /// The resolved pairs, in resolution order; applying them in order,
    /// later entries overwriting earlier ones, gives this environment.
    pub fn entries(&self) -> (r: &Vec<EnvEntry>)
        ensures
            map_of_entries(r@) == self@,
    {
        &self.entries
    }
}

/// How many command-kind definitions a list holds.
pub open spec fn n_cmds(defs: Seq<VarSpecV>) -> nat
    decreases defs.len(),
{
    if defs.len() == 0 {
        0
    } else {
        n_cmds(defs.drop_last()) + (if defs.last().kind is Command {
            1nat
        } else {
            0nat
        })
    }
}

/// The value a definition resolves to, given the outputs of the command-kind
/// definitions: a literal's trimmed text, or the trimmed output of its
/// command.
pub open spec fn resolved_value(d: VarSpecV, outs: Seq<Seq<char>>, cmds_before: nat) -> Seq<char> {
    match d.kind {
        VarKind::Literal => trim_spec(d.value),
        VarKind::Command => trim_spec(outs[cmds_before as int]),
    }
}

/// The environment a definition list resolves to, given the outputs of its
/// command-kind definitions, in order. Definitions apply in list order, a
/// later definition for a key overwriting an earlier one.
pub open spec fn resolved_env(defs: Seq<VarSpecV>, outs: Seq<Seq<char>>) -> Map<
    Seq<char>,
    Seq<char>,
>
    decreases defs.len(),
{
    if defs.len() == 0 {
        Map::empty()
    } else {
        resolved_env(defs.drop_last(), outs).insert(
            defs.last().key,
            resolved_value(defs.last(), outs, n_cmds(defs.drop_last())),
        )
    }
}

/// Law: a definition list reads only the outputs of its own command-kind
/// definitions. Outputs beyond those — the outputs of later commands — do
/// not affect the resolved environment.
pub proof fn lemma_env_from_earlier_only(defs: Seq<VarSpecV>, outs1: Seq<Seq<char>>, outs2: Seq<
    Seq<char>,
>)
    requires
        n_cmds(defs) <= outs1.len(),
        n_cmds(defs) <= outs2.len(),
        outs1.take(n_cmds(defs) as int) == outs2.take(n_cmds(defs) as int),
    ensures
        resolved_env(defs, outs1) == resolved_env(defs, outs2),
    decreases defs.len(),
{
    if defs.len() > 0 {
        let front = defs.drop_last();
        let n = n_cmds(front);
        assert(n <= n_cmds(defs));
        assert(outs1.take(n as int) =~= outs2.take(n as int)) by {
            assert(forall|j: int|
                0 <= j < n_cmds(defs) ==> outs1.take(n_cmds(defs) as int)[j] == outs2.take(
                    n_cmds(defs) as int,
                )[j]);
        }
        lemma_env_from_earlier_only(front, outs1, outs2);
        if defs.last().kind is Command {
            assert(outs1.take(n_cmds(defs) as int)[n as int] == outs2.take(
                n_cmds(defs) as int,
            )[n as int]);
            assert(outs1[n as int] == outs2[n as int]);
        }
    }
}

/// Law: resolving an empty definition list yields the empty environment,
/// and there is no command to run.
pub proof fn lemma_resolve_empty()
    ensures
        resolved_env(Seq::<VarSpecV>::empty(), Seq::<Seq<char>>::empty()) == Map::<
            Seq<char>,
            Seq<char>,
        >::empty(),
        n_cmds(Seq::<VarSpecV>::empty()) == 0,
{
}

/// The environment a list of literal definitions denotes: each key bound to
/// its trimmed literal value, a later definition overwriting an earlier one.
pub open spec fn literal_env(defs: Seq<VarSpecV>) -> Map<Seq<char>, Seq<char>>
    decreases defs.len(),
{
    if defs.len() == 0 {
        Map::empty()
    } else {
        literal_env(defs.drop_last()).insert(defs.last().key, trim_spec(defs.last().value))
    }
}

/// Law: a list of only literal definitions resolves to the map that binds
/// each key to its trimmed literal value, whatever outputs are supplied —
/// the outcome does not depend on anything run.
pub proof fn lemma_literals_only(defs: Seq<VarSpecV>, outs: Seq<Seq<char>>)
    requires
        forall|i: int| 0 <= i < defs.len() ==> defs[i].kind is Literal,
    ensures
        resolved_env(defs, outs) == literal_env(defs),
    decreases defs.len(),
{
    if defs.len() > 0 {
        assert(defs[defs.len() - 1].kind is Literal);
        lemma_literals_only(defs.drop_last(), outs);
    }
}

/// Law: appending a definition binds its key to its resolved value,
/// overwriting whatever an earlier definition bound the key to.
pub proof fn lemma_later_definition_wins(defs: Seq<VarSpecV>, outs: Seq<Seq<char>>, d: VarSpecV)
    ensures
        resolved_env(defs.push(d), outs) == resolved_env(defs, outs).insert(
            d.key,
            resolved_value(d, outs, n_cmds(defs)),
        ),
{
    assert(defs.push(d).drop_last() =~= defs);
    assert(defs.push(d).last() == d);
}

/// What the resolver asks of its driver next: nothing — resolution is
/// complete — or to run one shell command against the environment resolved
/// so far and hand back its captured output.
pub enum Step {
    Done,
    Run { key: String, command: String },
}

/// The resolution engine, driven as a state machine: the caller repeatedly
/// calls `advance`; on `Step::Run` it runs the command with exactly the
/// environment `env()` holds, then hands the captured output to
/// `supply_output`; on `Step::Done` the environment is fully resolved.
pub struct Resolver {
    defs: Vec<VariableSpec>,
    pos: usize,
    env: EnvMap,
    outputs: Ghost<Seq<Seq<char>>>,
}

impl Resolver {
    /// The definitions being resolved.
    pub closed spec fn defs_v(self) -> Seq<VarSpecV> {
        self.defs.deep_view()
    }

    /// How many definitions have been resolved so far.
    pub closed spec fn pos_v(self) -> int {
        self.pos as int
    }

    /// The outputs supplied so far, in order, untrimmed.
    pub closed spec fn outputs_v(self) -> Seq<Seq<char>> {
        self.outputs@
    }

    /// The environment resolved so far.
    pub closed spec fn env_v(self) -> Map<Seq<char>, Seq<char>> {
        self.env@
    }

    /// The resolver's invariant: the environment is exactly what the
    /// already-processed prefix of the definitions resolves to, under the
    /// outputs supplied so far.
    pub open spec fn wf(self) -> bool {
        &&& 0 <= self.pos_v() <= self.defs_v().len()
        &&& self.outputs_v().len() == n_cmds(self.defs_v().take(self.pos_v()))
        &&& self.env_v() == resolved_env(self.defs_v().take(self.pos_v()), self.outputs_v())
    }

    /// A fresh resolver over `defs`: nothing resolved, nothing run.
    pub fn new(defs: Vec<VariableSpec>) -> (r: Resolver)
        ensures
            r.wf(),
            r.defs_v() == defs.deep_view(),
            r.pos_v() == 0,
            r.outputs_v() == Seq::<Seq<char>>::empty(),
            r.env_v() == Map::<Seq<char>, Seq<char>>::empty(),
    {
        let r = Resolver { defs, pos: 0, env: EnvMap::new(), outputs: Ghost(Seq::empty()) };
        proof {
            assert(r.defs_v().take(0) =~= Seq::<VarSpecV>::empty());
        }
        r
    }

    /// The environment resolved so far.
    pub fn env(&self) -> (r: &EnvMap)
        ensures
            r@ == self.env_v(),
    {
        &self.env
    }

    /// Resolves literal definitions until resolution is complete
    /// (`Step::Done`) or a command-kind definition is reached (`Step::Run`).
    /// In the latter case the environment holds exactly the variables the
    /// strictly earlier definitions resolved to — nothing of the command's
    /// own definition, nothing of later ones — and the caller must run
    /// `command` against it and supply the captured output.
    pub fn advance(&mut self) -> (st: Step)
        requires
            old(self).wf(),
        ensures
            final(self).wf(),
            final(self).defs_v() == old(self).defs_v(),
            final(self).outputs_v() == old(self).outputs_v(),
            old(self).pos_v() <= final(self).pos_v(),
            match st {
                Step::Done => {
                    &&& final(self).pos_v() == final(self).defs_v().len()
                    &&& final(self).env_v() == resolved_env(
                        final(self).defs_v(),
                        final(self).outputs_v(),
                    )
                },
                Step::Run { key, command } => {
                    &&& final(self).pos_v() < final(self).defs_v().len()
                    &&& final(self).defs_v()[final(self).pos_v()].kind is Command
                    &&& key@ == final(self).defs_v()[final(self).pos_v()].key
                    &&& command@ == final(self).defs_v()[final(self).pos_v()].value
                    &&& final(self).env_v() == resolved_env(
                        final(self).defs_v().take(final(self).pos_v()),
                        final(self).outputs_v(),
                    )
                },
            },
    {
        loop
            invariant
                self.wf(),
                self.defs_v() == old(self).defs_v(),
                self.outputs_v() == old(self).outputs_v(),
                old(self).pos_v() <= self.pos_v(),
            decreases self.defs_v().len() - self.pos_v(),
        {
            if self.pos >= self.defs.len() {
                proof {
                    assert(self.defs_v().take(self.pos_v()) =~= self.defs_v());
                }
                return Step::Done;
            }
            let kind = self.defs[self.pos].kind;
            match kind {
                VarKind::Command => {
                    let key = self.defs[self.pos].key.clone();
                    let command = self.defs[self.pos].value.clone();
                    return Step::Run { key, command };
                },
                VarKind::Literal => {
                    let key = self.defs[self.pos].key.clone();
                    let v = trim(self.defs[self.pos].value.as_str());
                    let ghost p = self.pos_v();
                    self.env.insert(key, v);
                    self.pos = self.pos + 1;
                    proof {
                        let t = self.defs_v().take(p + 1);
                        assert(t.drop_last() =~= self.defs_v().take(p));
                        assert(t.last() == self.defs_v()[p]);
                    }
                },
            }
        }
    }

    /// Records the captured output of the command-kind definition the last
    /// `advance` stopped at: the definition's key is bound to the trimmed
    /// output, and resolution moves past the definition.
    pub fn supply_output(&mut self, out: &str)
        requires
            old(self).wf(),
            old(self).pos_v() < old(self).defs_v().len(),
            old(self).defs_v()[old(self).pos_v()].kind is Command,
        ensures
            final(self).wf(),
            final(self).defs_v() == old(self).defs_v(),
            final(self).pos_v() == old(self).pos_v() + 1,
            final(self).outputs_v() == old(self).outputs_v().push(out@),
            final(self).env_v() == old(self).env_v().insert(
                old(self).defs_v()[old(self).pos_v()].key,
                trim_spec(out@),
            ),
    {
        let n: usize = self.defs.len();
        proof {
            assert(self.defs.deep_view().len() == self.defs@.len());
        }
        let key = self.defs[self.pos].key.clone();
        let v = trim(out);
        let ghost p = self.pos_v();
        let ghost outs0 = self.outputs@;
        let ghost outs1 = self.outputs@.push(out@);
        self.env.insert(key, v);
        self.pos = self.pos + 1;
        proof {
            self.outputs@ = outs1;
            let defs = self.defs_v();
            let t = defs.take(p + 1);
            assert(t.drop_last() =~= defs.take(p));
            assert(t.last() == defs[p]);
            assert(outs0 =~= outs1.take(n_cmds(defs.take(p)) as int));
            assert(outs0.take(n_cmds(defs.take(p)) as int) =~= outs1.take(
                n_cmds(defs.take(p)) as int,
            ));
            lemma_env_from_earlier_only(defs.take(p), outs0, outs1);
            assert(outs1[n_cmds(defs.take(p)) as int] == out@);
        }
    }
}

} // verus!
