use vstd::prelude::*;
use crate::model::{ConfigDocument, Profile, VariableSpec};

verus! {

/// Why selecting a profile failed.
#[derive(Clone, Copy, PartialEq, Eq, Structural, Debug)]
pub enum RegistryError {
    UnknownProfile,
}

/// Why the exec path cannot start.
#[derive(Clone, Copy, PartialEq, Eq, Structural, Debug)]
pub enum ExecError {
    NoProfileSelected,
    UnknownProfile,
}

impl ExecError {
    /// The exit code the tool terminates with on this error.
    pub fn exit_code(&self) -> (r: i32)
        ensures
            r == 1,
    {
        1
    }
}

impl ConfigDocument {
    /// The index of the profile named `name`, if one exists.
    fn find_index(&self, name: &String) -> (r: Option<usize>)
        ensures
            match r {
                Some(i) => i < self@.profiles.len() && self@.profiles[i as int].name == name@,
                None => !self@.has_profile(name@),
            },
    {
        let mut i: usize = 0;
        while i < self.profiles.len()
            invariant
                i <= self@.profiles.len(),
                self@.profiles.len() == self.profiles@.len(),
                forall|j: int| 0 <= j < i ==> self@.profiles[j].name != name@,
            decreases self.profiles@.len() - i,
        {
            if self.profiles[i].name.eq(name) {
                return Some(i);
            }
            i = i + 1;
        }
        None
    }

    /// The currently selected profile's name, if one is set.
    pub fn get_current(&self) -> (r: Option<&String>)
        ensures
            match r {
                Some(n) => self@.current == Some(n@),
                None => self@.current is None,
            },
    {
        match &self.current {
            Some(n) => Some(n),
            None => None,
        }
    }

    /// Selects the profile named `name`. Fails, changing nothing, if no
    /// profile of that name exists.
    pub fn set_current(&mut self, name: &String) -> (r: Result<(), RegistryError>)
        ensures
            match r {
                Ok(()) => {
                    &&& old(self)@.has_profile(name@)
                    &&& final(self)@.profiles == old(self)@.profiles
                    &&& final(self)@.current == Some(name@)
                },
                Err(e) => {
                    &&& e == RegistryError::UnknownProfile
                    &&& !old(self)@.has_profile(name@)
                    &&& final(self)@ == old(self)@
                },
            },
    {
        match self.find_index(name) {
            Some(_) => {
                self.current = Some(name.clone());
                Ok(())
            },
            None => Err(RegistryError::UnknownProfile),
        }
    }

    /// The profile names, in insertion order.
    pub fn list_names(&self) -> (r: Vec<String>)
        ensures
            r.deep_view() == self@.names(),
    {
        let mut r: Vec<String> = Vec::new();
        let mut i: usize = 0;
        while i < self.profiles.len()
            invariant
                i <= self.profiles@.len(),
                r@.len() == i as int,
                r.deep_view() == self@.names().take(i as int),
            decreases self.profiles@.len() - i,
        {
            let ghost rvold = r@;
            r.push(self.profiles[i].name.clone());
            proof {
                assert forall|j: int| 0 <= j < r@.len() implies r.deep_view()[j]
                    == self@.names().take(i as int + 1)[j] by {
                    assert(r.deep_view()[j] == r@[j]@);
                    if j < i as int {
                        assert(r@[j] == rvold[j]);
                        assert(rvold[j]@ == self@.names().take(i as int)[j]);
                    } else {
                        assert(self@.names()[j] == self@.profiles[j].name);
                    }
                }
                assert(r.deep_view() =~= self@.names().take(i as int + 1));
            }
            i = i + 1;
        }
        proof {
            assert(self@.names().take(self.profiles@.len() as int) =~= self@.names());
        }
        r
    }

    /// Inserts the profile, or replaces the definition of the profile of
    /// that name, and selects it: the upserted profile always becomes the
    /// current one, whatever was current before.
    pub fn upsert(&mut self, name: String, vars: Vec<VariableSpec>)
        requires
            old(self)@.wf(),
        ensures
            final(self)@.wf(),
            final(self)@.current == Some(name@),
            final(self)@.has_profile(name@),
            final(self)@.def_of(name@) == vars.deep_view(),
            final(self)@.names() == if old(self)@.has_profile(name@) {
                old(self)@.names()
            } else {
                old(self)@.names().push(name@)
            },
            old(self)@.agrees_except(final(self)@, name@),
    {
        let ghost nm = name@;
        let ghost vs = vars.deep_view();
        let ghost oldv = self@;
        let ghost pv = crate::model::ProfileV { name: nm, vars: vs };
        let p = Profile { name: name.clone(), vars };
        let ghost mut replaced: Option<int> = None;
        match self.find_index(&name) {
            Some(i) => {
                self.profiles.remove(i);
                self.profiles.insert(i, p);
                proof {
                    replaced = Some(i as int);
                }
            },
            None => {
                self.profiles.push(p);
            },
        }
        self.current = Some(name);
        proof {
            match replaced {
                Some(i) => {
                    assert(self@.profiles =~= old(self)@.profiles.update(i, pv));
                    lemma_upsert_replace(old(self)@, self@, nm, i, vs);
                },
                None => {
                    assert(self@.profiles =~= old(self)@.profiles.push(pv));
                    lemma_upsert_append(old(self)@, self@, nm, vs);
                },
            }
        }
    }

    /// The definition of the profile named `name`, if one exists.
    pub fn get_definition(&self, name: &String) -> (r: Option<&Vec<VariableSpec>>)
        requires
            self@.wf(),
        ensures
            match r {
                Some(v) => self@.has_profile(name@) && v.deep_view() == self@.def_of(name@),
                None => !self@.has_profile(name@),
            },
    {
        match self.find_index(name) {
            Some(i) => {
                proof {
                    lemma_index_unique(self@, name@, i as int);
                }
                Some(&self.profiles[i].vars)
            },
            None => None,
        }
    }

    /// What `exec` is to run: the current profile's definitions. Fails when
    /// no profile is selected, or the selected name matches no profile.
    pub fn plan_exec(&self) -> (r: Result<&Vec<VariableSpec>, ExecError>)
        requires
            self@.wf(),
        ensures
            match r {
                Ok(v) => {
                    &&& self@.current is Some
                    &&& self@.has_profile(self@.current.unwrap())
                    &&& v.deep_view() == self@.def_of(self@.current.unwrap())
                },
                Err(ExecError::NoProfileSelected) => self@.current is None,
                Err(ExecError::UnknownProfile) => {
                    &&& self@.current is Some
                    &&& !self@.has_profile(self@.current.unwrap())
                },
            },
    {
        match &self.current {
            None => Err(ExecError::NoProfileSelected),
            Some(n) => {
                let name = n.clone();
                match self.get_definition(&name) {
                    Some(v) => Ok(v),
                    None => Err(ExecError::UnknownProfile),
                }
            },
        }
    }
}

/// In a well-formed document, the profile found at `i` is the one
/// `index_of` denotes.
proof fn lemma_index_unique(d: crate::model::DocV, name: Seq<char>, i: int)
    requires
        d.wf(),
        0 <= i < d.profiles.len(),
        d.profiles[i].name == name,
    ensures
        d.has_profile(name),
        d.index_of(name) == i,
        d.def_of(name) == d.profiles[i].vars,
{
    assert(d.has_profile(name));
    let k = d.index_of(name);
    assert(0 <= k < d.profiles.len() && d.profiles[k].name == name);
    if k != i {
        if k < i {
            assert(d.profiles[k].name != d.profiles[i].name);
        } else {
            assert(d.profiles[i].name != d.profiles[k].name);
        }
    }
}

/// Replacing the definition at the index of an existing name keeps the
/// names and the other definitions.
proof fn lemma_upsert_replace(
    oldd: crate::model::DocV,
    newd: crate::model::DocV,
    name: Seq<char>,
    i: int,
    vars: Seq<crate::model::VarSpecV>,
)
    requires
        oldd.wf(),
        0 <= i < oldd.profiles.len(),
        oldd.profiles[i].name == name,
        newd.profiles == oldd.profiles.update(
            i,
            crate::model::ProfileV { name: name, vars: vars },
        ),
    ensures
        newd.wf(),
        newd.has_profile(name),
        newd.def_of(name) == vars,
        newd.names() == oldd.names(),
        oldd.agrees_except(newd, name),
{
    assert(newd.names() =~= oldd.names());
    assert(newd.wf());
    lemma_index_unique(newd, name, i);
    assert forall|n: Seq<char>| n != name implies (#[trigger] newd.has_profile(n)
        == oldd.has_profile(n) && (oldd.has_profile(n) ==> newd.def_of(n) == oldd.def_of(n))) by {
        if oldd.has_profile(n) {
            let k = oldd.index_of(n);
            assert(oldd.profiles[k].name == n);
            assert(k != i);
            assert(newd.profiles[k].name == n);
            assert(newd.has_profile(n));
            lemma_index_unique(newd, n, k);
            lemma_index_unique(oldd, n, k);
        }
        if newd.has_profile(n) {
            let k = newd.index_of(n);
            assert(newd.profiles[k].name == n);
            assert(k != i);
            assert(oldd.profiles[k].name == n);
            assert(oldd.has_profile(n));
        }
    }
}

/// Appending a profile of a fresh name keeps the other definitions and
/// appends the name.
proof fn lemma_upsert_append(
    oldd: crate::model::DocV,
    newd: crate::model::DocV,
    name: Seq<char>,
    vars: Seq<crate::model::VarSpecV>,
)
    requires
        oldd.wf(),
        !oldd.has_profile(name),
        newd.profiles == oldd.profiles.push(crate::model::ProfileV { name: name, vars: vars }),
    ensures
        newd.wf(),
        newd.has_profile(name),
        newd.def_of(name) == vars,
        newd.names() == oldd.names().push(name),
        oldd.agrees_except(newd, name),
{
    let m = oldd.profiles.len() as int;
    assert forall|j: int| 0 <= j < m implies oldd.profiles[j].name != name by {
        if oldd.profiles[j].name == name {
            assert(oldd.has_profile(name));
        }
    }
    assert(newd.wf());
    assert(newd.profiles[m].name == name);
    assert(newd.has_profile(name));
    lemma_index_unique(newd, name, m);
    assert(newd.names() =~= oldd.names().push(name));
    assert forall|n: Seq<char>| n != name implies (#[trigger] newd.has_profile(n)
        == oldd.has_profile(n) && (oldd.has_profile(n) ==> newd.def_of(n) == oldd.def_of(n))) by {
        if oldd.has_profile(n) {
            let k = oldd.index_of(n);
            assert(newd.profiles[k].name == n);
            assert(newd.has_profile(n));
            lemma_index_unique(newd, n, k);
            lemma_index_unique(oldd, n, k);
        }
        if newd.has_profile(n) {
            let k = newd.index_of(n);
            assert(newd.profiles[k].name == n);
            assert(k != m);
            assert(oldd.profiles[k].name == n);
            assert(oldd.has_profile(n));
        }
    }
}

} // verus!
