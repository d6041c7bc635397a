use vstd::prelude::*;
use vstd::string::*;

verus! {

/// Why a change to the registry was refused.
#[derive(Debug, PartialEq, Eq, Structural)]
pub enum ConfigError {
    StorageNotFound,
    StorageAlreadyExists,
}

/// The registry of queue names and the active one.
#[derive(Debug)]
pub struct Config {
    active_storage: String,
    storage_list: Vec<String>,
}

/// The characters of each string in `v`.
pub open spec fn names_of(v: Seq<String>) -> Seq<Seq<char>> {
    v.map_values(|s: String| s@)
}

/// A batch can be registered on top of `names`: its names are pairwise
/// distinct and none is registered yet.
pub open spec fn batch_fits(names: Seq<Seq<char>>, batch: Seq<Seq<char>>) -> bool {
    &&& batch.no_duplicates()
    &&& forall|i: int| 0 <= i < batch.len() ==> !names.contains(#[trigger] batch[i])
}

/// Whether `name` is one of the strings of `list`.
fn list_contains(list: &Vec<String>, name: &String) -> (r: bool)
    ensures
        r == names_of(list@).contains(name@),
{
    let mut i: usize = 0;
    while i < list.len()
        invariant
            i <= list@.len(),
            forall|j: int| 0 <= j < i ==> list@[j]@ != name@,
        decreases list@.len() - i,
    {
        if list[i] == *name {
            assert(names_of(list@)[i as int] == name@);
            return true;
        }
        i = i + 1;
    }
    assert(!names_of(list@).contains(name@)) by {
        if names_of(list@).contains(name@) {
            let k = choose|k: int| 0 <= k < names_of(list@).len() && names_of(list@)[k] == name@;
            assert(list@[k]@ == name@);
        }
    }
    false
}

impl Config {
    /// The registered names, in the order they were added.
    pub closed spec fn names(&self) -> Seq<Seq<char>> {
        names_of(self.storage_list@)
    }

    /// The active name; empty while none is set.
    pub closed spec fn active(&self) -> Seq<char> {
        self.active_storage@
    }

    /// Names are unique, and the active name, when set, is registered.
    pub open spec fn wf(&self) -> bool {
        &&& self.names().no_duplicates()
        &&& (self.active().len() == 0 || self.names().contains(self.active()))
    }

    pub fn new() -> (r: Self)
        ensures
            r.active().len() == 0,
            r.names().len() == 0,
            r.wf(),
    {
        Config { active_storage: String::new(), storage_list: Vec::new() }
    }

    /// Makes a registered name the active one; fails with `StorageNotFound`
    /// when it is not registered, leaving the registry as it was.
    pub fn set_active_storage(&mut self, storage_name: &str) -> (r: Result<(), ConfigError>)
        ensures
            r.is_ok() <==> old(self).names().contains(storage_name@),
            r matches Err(e) ==> e == ConfigError::StorageNotFound,
            final(self).names() == old(self).names(),
            final(self).active() == if r.is_ok() { storage_name@ } else { old(self).active() },
            old(self).wf() ==> final(self).wf(),
    {
        let name = String::from_str(storage_name);
        if !list_contains(&self.storage_list, &name) {
            return Err(ConfigError::StorageNotFound);
        }
        self.active_storage = name;
        Ok(())
    }

    /// The active name, or `None` while none is set.
    pub fn get_active_storage(&self) -> (r: Option<String>)
        ensures
            self.active().len() == 0 ==> r.is_none(),
            self.active().len() != 0 ==> (r matches Some(s) && s@ == self.active()),
    {
        if self.active_storage.as_str().is_empty() {
            None
        } else {
            Some(self.active_storage.clone())
        }
    }

    /// Registers a name at the end of the list; fails with
    /// `StorageAlreadyExists` when it is registered already.
    pub fn add_storage(&mut self, storage_name: &str) -> (r: Result<(), ConfigError>)
        ensures
            r.is_ok() <==> !old(self).names().contains(storage_name@),
            r matches Err(e) ==> e == ConfigError::StorageAlreadyExists,
            final(self).names() == if r.is_ok() {
                old(self).names().push(storage_name@)
            } else {
                old(self).names()
            },
            final(self).active() == old(self).active(),
            old(self).wf() ==> final(self).wf(),
    {
        let name = String::from_str(storage_name);
        if list_contains(&self.storage_list, &name) {
            return Err(ConfigError::StorageAlreadyExists);
        }
        self.storage_list.push(name);
        assert(self.names() =~= old(self).names().push(storage_name@));
        proof {
            if old(self).wf() {
                assert(self.names().no_duplicates());
                if self.active().len() != 0 {
                    let k = choose|k: int|
                        0 <= k < old(self).names().len() && old(self).names()[k] == self.active();
                    assert(self.names()[k] == self.active());
                }
            }
        }
        Ok(())
    }

    /// Registers a batch of names in order, all or none: fails with
    /// `StorageAlreadyExists`, changing nothing, when a name of the batch is
    /// registered already or occurs twice in it.
    pub fn set_storage_list(&mut self, storage_list: Vec<String>) -> (r: Result<(), ConfigError>)
        ensures
            r.is_ok() <==> batch_fits(old(self).names(), names_of(storage_list@)),
            r matches Err(e) ==> e == ConfigError::StorageAlreadyExists,
            final(self).names() == if r.is_ok() {
                old(self).names() + names_of(storage_list@)
            } else {
                old(self).names()
            },
            final(self).active() == old(self).active(),
            old(self).wf() ==> final(self).wf(),
    {
        let ghost batch = names_of(storage_list@);
        let mut staged = Config { active_storage: String::new(), storage_list: self.storage_list.clone() };
        assert(staged.names() =~= self.names()) by {
            assert forall|k: int| 0 <= k < staged.names().len() implies staged.names()[k] == self.names()[k] by {
                assert(cloned::<String>(self.storage_list@[k], staged.storage_list@[k]));
            }
        }
        let mut i: usize = 0;
        while i < storage_list.len()
            invariant
                i <= storage_list@.len(),
                batch == names_of(storage_list@),
                staged.names() == old(self).names() + batch.subrange(0, i as int),
                batch_fits(old(self).names(), batch.subrange(0, i as int)),
                *self == *old(self),
            decreases storage_list@.len() - i,
        {
            let ghost before = staged.names();
            match staged.add_storage(storage_list[i].as_str()) {
                Ok(()) => {},
                Err(e) => {
                    proof {
                        let prefix = batch.subrange(0, i as int);
                        if old(self).names().contains(batch[i as int]) {
                            assert(!batch_fits(old(self).names(), batch));
                        } else {
                            let k = choose|k: int| 0 <= k < before.len() && before[k] == batch[i as int];
                            let j = k - old(self).names().len();
                            assert(before[k] == prefix[j]);
                            assert(batch[j] == batch[i as int]);
                            assert(!batch.no_duplicates());
                        }
                    }
                    return Err(e);
                },
            }
            proof {
                let prefix = batch.subrange(0, i as int);
                let next = batch.subrange(0, i + 1);
                assert(next =~= prefix.push(batch[i as int]));
                assert(staged.names() =~= old(self).names() + next);
                assert(!old(self).names().contains(batch[i as int])) by {
                    if old(self).names().contains(batch[i as int]) {
                        let k = choose|k: int|
                            0 <= k < old(self).names().len() && old(self).names()[k] == batch[i as int];
                        assert(before[k] == batch[i as int]);
                    }
                }
                assert forall|a: int, b: int| 0 <= a < b < next.len() implies next[a] != next[b] by {
                    if b == i {
                        assert(before[old(self).names().len() + a] == next[a]);
                    }
                }
            }
            i = i + 1;
        }
        assert(batch.subrange(0, i as int) =~= batch);
        self.storage_list = staged.storage_list;
        proof {
            if old(self).wf() {
                assert forall|a: int, b: int| 0 <= a < b < self.names().len() implies self.names()[a]
                    != self.names()[b] by {
                    let n = old(self).names().len();
                    if b >= n && a < n {
                        assert(batch[b - n] == self.names()[b]);
                        assert(old(self).names().contains(self.names()[a]));
                    }
                }
                if self.active().len() != 0 {
                    let k = choose|k: int|
                        0 <= k < old(self).names().len() && old(self).names()[k] == self.active();
                    assert(self.names()[k] == self.active());
                }
            }
        }
        Ok(())
    }

    /// Registers a new queue name and makes it the active one; fails with
    /// `StorageAlreadyExists`, changing nothing, when it is registered already.
    pub fn create_storage(&mut self, storage_name: &str) -> (r: Result<(), ConfigError>)
        ensures
            r.is_ok() <==> !old(self).names().contains(storage_name@),
            r matches Err(e) ==> e == ConfigError::StorageAlreadyExists,
            r.is_ok() ==> final(self).names() == old(self).names().push(storage_name@)
                && final(self).active() == storage_name@,
            r.is_err() ==> final(self).names() == old(self).names() && final(self).active()
                == old(self).active(),
            old(self).wf() ==> final(self).wf(),
    {
        self.add_storage(storage_name)?;
        let activated = self.set_active_storage(storage_name);
        assert(self.names()[self.names().len() - 1] == storage_name@);
        assert(activated.is_ok());
        Ok(())
    }

    pub fn get_storage_list(&self) -> (r: &[String])
        ensures
            names_of(r@) == self.names(),
    {
        self.storage_list.as_slice()
    }

    pub fn has_storages(&self) -> (r: bool)
        ensures
            r == (self.names().len() > 0),
    {
        self.storage_list.len() > 0
    }
}

} // verus!
