use vstd::prelude::*;
use crate::text::str_eq;

verus! {

/// The kind of a variable definition: a fixed literal value, or a shell
/// command whose captured output becomes the value.
#[derive(Clone, Copy, PartialEq, Eq, Structural, Debug)]
pub enum VarKind {
    Literal,
    Command,
}

/// One environment-variable definition of a profile.
pub struct VariableSpec {
    pub key: String,
    pub kind: VarKind,
    pub value: String,
}

/// The mathematical view of a `VariableSpec`.
pub struct VarSpecV {
    pub key: Seq<char>,
    pub kind: VarKind,
    pub value: Seq<char>,
}

impl View for VariableSpec {
    type V = VarSpecV;

    open spec fn view(&self) -> VarSpecV {
        VarSpecV { key: self.key@, kind: self.kind, value: self.value@ }
    }
}

impl DeepView for VariableSpec {
    type V = VarSpecV;

    open spec fn deep_view(&self) -> VarSpecV {
        self.view()
    }
}

/// A named profile: an ordered list of variable definitions. The order is
/// the evaluation order of the resolver.
pub struct Profile {
    pub name: String,
    pub vars: Vec<VariableSpec>,
}

/// The mathematical view of a `Profile`.
pub struct ProfileV {
    pub name: Seq<char>,
    pub vars: Seq<VarSpecV>,
}

impl View for Profile {
    type V = ProfileV;

    open spec fn view(&self) -> ProfileV {
        ProfileV { name: self.name@, vars: self.vars.deep_view() }
    }
}

impl DeepView for Profile {
    type V = ProfileV;

    open spec fn deep_view(&self) -> ProfileV {
        self.view()
    }
}

/// The persisted configuration document: the currently selected profile, if
/// any, and the named profiles in insertion order.
pub struct ConfigDocument {
    pub current: Option<String>,
    pub profiles: Vec<Profile>,
}

/// The mathematical view of a `ConfigDocument`.
pub struct DocV {
    pub current: Option<Seq<char>>,
    pub profiles: Seq<ProfileV>,
}

impl View for ConfigDocument {
    type V = DocV;

    open spec fn view(&self) -> DocV {
        DocV { current: self.current.deep_view(), profiles: self.profiles.deep_view() }
    }
}

impl DeepView for ConfigDocument {
    type V = DocV;

    open spec fn deep_view(&self) -> DocV {
        self.view()
    }
}

impl DocV {
    /// The profile names, in insertion order.
    pub open spec fn names(self) -> Seq<Seq<char>> {
        self.profiles.map_values(|p: ProfileV| p.name)
    }

    /// Whether a profile of that name exists.
    pub open spec fn has_profile(self, name: Seq<char>) -> bool {
        exists|i: int| 0 <= i < self.profiles.len() && self.profiles[i].name == name
    }

    /// The index of the profile of that name.
    pub open spec fn index_of(self, name: Seq<char>) -> int {
        choose|i: int| 0 <= i < self.profiles.len() && self.profiles[i].name == name
    }

    /// The definition of the profile of that name.
    pub open spec fn def_of(self, name: Seq<char>) -> Seq<VarSpecV> {
        self.profiles[self.index_of(name)].vars
    }

    /// Every profile other than `name` is the same in `self` and in
    /// `other`: present in one exactly when present in the other, with the
    /// same definition.
    pub open spec fn agrees_except(self, other: DocV, name: Seq<char>) -> bool {
        forall|n: Seq<char>|
            n != name ==> (#[trigger] other.has_profile(n) == self.has_profile(n) && (
            self.has_profile(n) ==> other.def_of(n) == self.def_of(n)))
    }

    /// Profile names are pairwise distinct.
    pub open spec fn wf(self) -> bool {
        forall|i: int, j: int|
            0 <= i < j < self.profiles.len() ==> self.profiles[i].name != self.profiles[j].name
    }
}

impl ConfigDocument {
    /// The empty document: no selection, no profiles.
    pub fn empty() -> (r: ConfigDocument)
        ensures
            r@.current is None,
            r@.profiles == Seq::<ProfileV>::empty(),
            r@.wf(),
    {
        let r = ConfigDocument { current: None, profiles: Vec::new() };
        proof {
            assert(r@.profiles =~= Seq::<ProfileV>::empty());
        }
        r
    }
}

/// The persisted name of a variable kind.
pub open spec fn kind_text(k: VarKind) -> Seq<char> {
    match k {
        VarKind::Literal => seq!['v', 'a', 'l', 'u', 'e'],
        VarKind::Command => seq!['c', 'o', 'm', 'm', 'a', 'n', 'd'],
    }
}

/// The kind a persisted name denotes, if any.
pub open spec fn kind_of_text(s: Seq<char>) -> Option<VarKind> {
    if s == kind_text(VarKind::Command) {
        Some(VarKind::Command)
    } else if s == kind_text(VarKind::Literal) {
        Some(VarKind::Literal)
    } else {
        None
    }
}

/// Parses the persisted name of a variable kind: `value` or `command`.
pub fn parse_kind(s: &str) -> (r: Option<VarKind>)
    ensures
        r == kind_of_text(s@),
{
    proof {
        reveal_strlit("command");
        reveal_strlit("value");
        assert("command"@ =~= kind_text(VarKind::Command));
        assert("value"@ =~= kind_text(VarKind::Literal));
    }
    if str_eq(s, "command") {
        Some(VarKind::Command)
    } else if str_eq(s, "value") {
        Some(VarKind::Literal)
    } else {
        None
    }
}

/// A copy of a definition list, entry by entry.
pub fn clone_specs(v: &Vec<VariableSpec>) -> (r: Vec<VariableSpec>)
    ensures
        r.deep_view() == v.deep_view(),
{
    let mut r: Vec<VariableSpec> = Vec::new();
    let mut i: usize = 0;
    while i < v.len()
        invariant
            i <= v@.len(),
            r@.len() == i as int,
            r.deep_view() == v.deep_view().take(i as int),
        decreases v@.len() - i,
    {
        let e = VariableSpec {
            key: v[i].key.clone(),
            kind: v[i].kind,
            value: v[i].value.clone(),
        };
        proof {
            assert(e@ == v@[i as int]@);
        }
        let ghost rold = r.deep_view();
        let ghost rvold = r@;
        r.push(e);
        proof {
            assert forall|j: int| 0 <= j < r@.len() implies r.deep_view()[j] == v.deep_view().take(
                i as int + 1,
            )[j] by {
                assert(r.deep_view()[j] == r@[j].deep_view());
                if j < i as int {
                    assert(r@[j] == rvold[j]);
                    assert(rold[j] == rvold[j].deep_view());
                    assert(rold[j] == v.deep_view().take(i as int)[j]);
                } else {
                    assert(r@[j] == e);
                }
            }
            assert(r.deep_view() =~= v.deep_view().take(i as int + 1));
        }
        i = i + 1;
    }
    proof {
        assert(v.deep_view().take(v@.len() as int) =~= v.deep_view());
    }
    r
}

} // verus!
