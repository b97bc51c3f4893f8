//! The characters of a session, each under its own name.

use vstd::prelude::*;

verus! {

/// The names of a roster's entries, in order.
pub open spec fn names_of<C>(s: Seq<(Seq<char>, C)>) -> Seq<Seq<char>> {
    s.map_values(|p: (Seq<char>, C)| p.0)
}

/// Some entry of the roster goes by `name`.
pub open spec fn has_name<C>(s: Seq<(Seq<char>, C)>, name: Seq<char>) -> bool {
    names_of(s).contains(name)
}

/// No two entries share a name.
pub open spec fn names_distinct<C>(s: Seq<(Seq<char>, C)>) -> bool {
    forall|i: int, j: int| 0 <= i < s.len() && 0 <= j < s.len() && i != j ==> s[i].0 != s[j].0
}

/// `i` is the first position of `s` that goes by `name`.
pub open spec fn first_with_name<C>(s: Seq<(Seq<char>, C)>, name: Seq<char>, i: int) -> bool {
    &&& 0 <= i < s.len()
    &&& s[i].0 == name
    &&& forall|j: int| 0 <= j < i ==> s[j].0 != name
}

/// Only one position is the first to go by a name, and a name that some position goes
/// by is a name of the roster.
pub proof fn lemma_first_with_name<C>(s: Seq<(Seq<char>, C)>, name: Seq<char>, i: int)
    requires
        first_with_name(s, name, i),
    ensures
        has_name(s, name),
        forall|j: int| #[trigger] first_with_name(s, name, j) ==> j == i,
{
    assert(names_of(s)[i] == name);
}

/// What adding `value` under `name` leaves: it takes the place of the entry at `replaced`,
/// or goes last when that is `None`.
pub open spec fn inserted<C>(
    before: Seq<(Seq<char>, C)>,
    name: Seq<char>,
    value: C,
    replaced: Option<int>,
) -> Seq<(Seq<char>, C)> {
    match replaced {
        Some(i) => before.update(i, (name, value)),
        None => before.push((name, value)),
    }
}

/// Looking a name up after adding a character under it finds that character.
pub proof fn lemma_get_after_insert<C>(
    before: Seq<(Seq<char>, C)>,
    name: Seq<char>,
    value: C,
    replaced: Option<int>,
)
    requires
        match replaced {
            Some(i) => first_with_name(before, name, i),
            None => !has_name(before, name),
        },
    ensures
        exists|i: int|
            first_with_name(inserted(before, name, value, replaced), name, i) && inserted(
                before,
                name,
                value,
                replaced,
            )[i].1 == value,
{
    let after = inserted(before, name, value, replaced);
    match replaced {
        Some(i) => {
            assert(first_with_name(after, name, i));
        },
        None => {
            let n = before.len() as int;
            assert forall|j: int| 0 <= j < n implies after[j].0 != name by {
                assert(names_of(before)[j] == before[j].0);
            }
            assert(first_with_name(after, name, n));
        },
    }
}

/// The characters of a session by name, in the order in which they were first added.
/// A name stands for one character only: adding under a taken name replaces that
/// character in its place.
pub struct Roster<C> {
    keys: Vec<String>,
    values: Vec<C>,
}

impl<C> View for Roster<C> {
    type V = Seq<(Seq<char>, C)>;

    closed spec fn view(&self) -> Seq<(Seq<char>, C)> {
        Seq::new(self.values@.len(), |i: int| (self.keys@[i]@, self.values@[i]))
    }
}

impl<C> Roster<C> {
    /// As many names as characters, and no two names alike.
    #[verifier::type_invariant]
    closed spec fn wf(self) -> bool {
        &&& self.keys@.len() == self.values@.len()
        &&& forall|i: int, j: int|
            0 <= i < self.keys@.len() && 0 <= j < self.keys@.len() && i != j ==> self.keys@[i]@
                != self.keys@[j]@
    }

    /// An empty roster.
    pub fn new() -> (r: Self)
        ensures
            r@ == Seq::<(Seq<char>, C)>::empty(),
    {
        let r = Roster { keys: Vec::new(), values: Vec::new() };
        assert(r@ =~= Seq::<(Seq<char>, C)>::empty());
        r
    }

    /// The number of characters; no two of them share a name.
    pub fn len(&self) -> (n: usize)
        ensures
            n == self@.len(),
            names_distinct(self@),
    {
        proof {
            use_type_invariant(self);
        }
        self.values.len()
    }

    /// Whether the roster holds no character.
    pub fn is_empty(&self) -> (b: bool)
        ensures
            b == (self@.len() == 0),
    {
        self.values.len() == 0
    }

    /// The position of the character named `name`, if there is one.
    fn position(&self, name: &str) -> (r: Option<usize>)
        ensures
            match r {
                Some(i) => first_with_name(self@, name@, i as int),
                None => !has_name(self@, name@),
            },
    {
        proof {
            use_type_invariant(self);
        }
        let key = name.to_owned();
        let mut i: usize = 0;
        while i < self.values.len()
            invariant
                i <= self.values@.len(),
                self.keys@.len() == self.values@.len(),
                key@ == name@,
                forall|j: int| 0 <= j < i ==> self@[j].0 != name@,
            decreases self.values@.len() - i,
        {
            if self.keys[i] == key {
                return Some(i);
            }
            i = i + 1;
        }
        assert forall|j: int| 0 <= j < names_of(self@).len() implies names_of(self@)[j] != name@ by {
            assert(self@[j].0 != name@);
        }
        None
    }

    /// Whether a character goes by `name`.
    pub fn contains_key(&self, name: &str) -> (b: bool)
        ensures
            b == has_name(self@, name@),
    {
        match self.position(name) {
            Some(i) => {
                assert(names_of(self@)[i as int] == name@);
                true
            },
            None => false,
        }
    }

    /// The character named `name`, if there is one.
    pub fn get(&self, name: &str) -> (r: Option<&C>)
        ensures
            match r {
                Some(c) => exists|i: int| first_with_name(self@, name@, i) && self@[i].1 == *c,
                None => !has_name(self@, name@),
            },
    {
        proof {
            use_type_invariant(self);
        }
        match self.position(name) {
            Some(i) => Some(&self.values[i]),
            None => None,
        }
    }

    /// The character named `name`, if there is one, to be changed in place.
    pub fn get_mut(&mut self, name: &str) -> (r: Option<&mut C>)
        ensures
            match r {
                Some(c) => exists|i: int|
                    first_with_name(old(self)@, name@, i) && old(self)@[i].1 == *c
                        && final(self)@ == old(self)@.update(i, (name@, *final(c))),
                None => !has_name(old(self)@, name@) && *final(self) == *old(self),
            },
    {
        proof {
            use_type_invariant(&*self);
        }
        match self.position(name) {
            Some(i) => Some(&mut self.values[i]),
            None => None,
        }
    }

    /// Adds `value` under `name`. The character that already goes by `name` is replaced
    /// in its place and handed back; otherwise the new one goes last.
    pub fn insert(&mut self, name: String, value: C) -> (r: Option<C>)
        ensures
            names_distinct(final(self)@),
            match r {
                Some(previous) => exists|i: int|
                    first_with_name(old(self)@, name@, i) && old(self)@[i].1 == previous
                        && final(self)@ == old(self)@.update(i, (name@, value)),
                None => !has_name(old(self)@, name@) && final(self)@ == old(self)@.push(
                    (name@, value),
                ),
            },
    {
        proof {
            use_type_invariant(&*self);
        }
        let ghost old_view = self@;
        match self.position(name.as_str()) {
            Some(i) => {
                let ghost new_value = value;
                let mut previous = value;
                std::mem::swap(&mut self.values[i], &mut previous);
                proof {
                    use_type_invariant(&*self);
                }
                assert(self@ =~= old_view.update(i as int, (name@, new_value)));
                Some(previous)
            },
            None => {
                assert forall|j: int| 0 <= j < old_view.len() implies old_view[j].0 != name@ by {
                    assert(names_of(old_view)[j] == old_view[j].0);
                }
                let ghost new_value = value;
                let ghost new_name = name@;
                let mut taken = Roster { keys: Vec::new(), values: Vec::new() };
                std::mem::swap(self, &mut taken);
                proof {
                    use_type_invariant(&taken);
                }
                assert(taken@ == old_view);
                let Roster { keys, values } = taken;
                assert forall|j: int| 0 <= j < keys@.len() implies keys@[j]@ != new_name by {
                    assert(old_view[j].0 == keys@[j]@);
                }
                let mut keys = keys;
                let mut values = values;
                let ghost old_keys = keys@;
                keys.push(name);
                values.push(value);
                assert forall|i: int, j: int|
                    0 <= i < keys@.len() && 0 <= j < keys@.len() && i != j implies keys@[i]@
                    != keys@[j]@ by {
                    if i < old_keys.len() && j < old_keys.len() {
                        assert(keys@[i] == old_keys[i]);
                        assert(keys@[j] == old_keys[j]);
                    }
                }
                let r = Roster { keys, values };
                assert(r@ =~= old_view.push((new_name, new_value)));
                *self = r;
                proof {
                    use_type_invariant(&*self);
                }
                None
            },
        }
    }

    /// The name of the character at position `i`.
    pub fn name_at(&self, i: usize) -> (r: &String)
        requires
            i < self@.len(),
        ensures
            r@ == self@[i as int].0,
    {
        proof {
            use_type_invariant(self);
        }
        &self.keys[i]
    }

    /// The character at position `i`.
    pub fn value_at(&self, i: usize) -> (r: &C)
        requires
            i < self@.len(),
        ensures
            *r == self@[i as int].1,
    {
        &self.values[i]
    }

    /// The names of all characters, in roster order.
    pub fn names(&self) -> (r: Vec<String>)
        ensures
            r@.map_values(|s: String| s@) == names_of(self@),
    {
        proof {
            use_type_invariant(self);
        }
        let mut r: Vec<String> = Vec::new();
        let mut i: usize = 0;
        while i < self.values.len()
            invariant
                i <= self.values@.len(),
                self.keys@.len() == self.values@.len(),
                r@.len() == i,
                forall|j: int| 0 <= j < i ==> #[trigger] r@[j]@ == self@[j].0,
            decreases self.values@.len() - i,
        {
            r.push(self.keys[i].clone());
            i = i + 1;
        }
        assert(r@.map_values(|s: String| s@) =~= names_of(self@));
        r
    }
}

} // verus!
