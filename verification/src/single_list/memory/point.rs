//! A singly linked list of strings.
use vstd::prelude::*;

verus! {

/// One link of the list.
pub struct Node {
    pub value: String,
    pub next: Option<Box<Node>>,
}

/// The values from `n` to the end of the list.
pub open spec fn values_from(n: Option<Box<Node>>) -> Seq<Seq<char>>
    decreases n,
{
    match n {
        None => Seq::empty(),
        Some(b) => seq![b.value@] + values_from(b.next),
    }
}

/// A singly linked list that keeps count of its links.
pub struct List {
    first: Option<Box<Node>>,
    len: usize,
}

impl View for List {
    type V = Seq<Seq<char>>;

    /// The values of the list, first to last.
    closed spec fn view(&self) -> Seq<Seq<char>> {
        values_from(self.first)
    }
}

/// `values` with `value` placed at `index`, or at the end where `index` is past it.
pub open spec fn inserted_at(values: Seq<Seq<char>>, index: int, value: Seq<char>) -> Seq<Seq<char>> {
    values.insert(if index < values.len() { index } else { values.len() as int }, value)
}

/// Links `value` in at `index` below `n`, or at the end.
fn insert_from(n: Option<Box<Node>>, index: usize, value: String) -> (r: Option<Box<Node>>)
    ensures
        values_from(r) == inserted_at(values_from(n), index as int, value@),
    decreases n,
{
    if index == 0 {
        let r = Some(Box::new(Node { value, next: n }));
        proof {
            assert(values_from(r) =~= values_from(n).insert(0, value@));
        }
        r
    } else {
        match n {
            None => {
                let r = Some(Box::new(Node { value, next: None }));
                proof {
                    assert(values_from(None::<Box<Node>>) =~= Seq::<Seq<char>>::empty());
                    assert(values_from(r) =~= seq![value@]);
                    assert(values_from(n) =~= Seq::<Seq<char>>::empty());
                }
                r
            },
            Some(b) => {
                let b = *b;
                let ghost rest = values_from(b.next);
                let next = insert_from(b.next, index - 1, value);
                let r = Some(Box::new(Node { value: b.value, next }));
                proof {
                    assert(values_from(r) =~= seq![b.value@] + inserted_at(rest, index - 1, value@));
                    assert(values_from(n) == seq![b.value@] + rest);
                    assert(values_from(r) =~= inserted_at(values_from(n), index as int, value@));
                }
                r
            },
        }
    }
}

/// Unlinks the value at `index` below `n`.
fn remove_from(n: Option<Box<Node>>, index: usize) -> (r: Option<Box<Node>>)
    requires
        index < values_from(n).len(),
    ensures
        values_from(r) == values_from(n).remove(index as int),
    decreases n,
{
    match n {
        None => None,
        Some(b) => {
            let b = *b;
            let ghost rest = values_from(b.next);
            if index == 0 {
                proof {
                    assert(values_from(n) == seq![b.value@] + rest);
                    assert(values_from(n).remove(0) =~= rest);
                }
                b.next
            } else {
                let next = remove_from(b.next, index - 1);
                let r = Some(Box::new(Node { value: b.value, next }));
                proof {
                    assert(values_from(n) == seq![b.value@] + rest);
                    assert(values_from(r) =~= values_from(n).remove(index as int));
                }
                r
            }
        },
    }
}

/// Copies out the values below `n`, in order.
fn collect_from(n: &Option<Box<Node>>, out: &mut Vec<String>)
    ensures
        final(out)@.map_values(|s: String| s@) == old(out)@.map_values(|s: String| s@) + values_from(*n),
    decreases n,
{
    match n {
        None => {
            assert(final(out)@.map_values(|s: String| s@) =~= old(out)@.map_values(|s: String| s@) + values_from(*n));
        },
        Some(b) => {
            let ghost before = out@;
            out.push(b.value.clone());
            assert(out@.map_values(|s: String| s@) =~= before.map_values(|s: String| s@) + seq![b.value@]);
            collect_from(&b.next, out);
            assert(final(out)@.map_values(|s: String| s@) =~= before.map_values(|s: String| s@) + values_from(*n));
        },
    }
}

impl List {
    #[verifier::type_invariant]
    spec fn inv(self) -> bool {
        self.len == values_from(self.first).len()
    }

    /// An empty list.
    pub fn new() -> (l: List)
        ensures
            l@ == Seq::<Seq<char>>::empty(),
    {
        List { first: None, len: 0 }
    }

    /// The number of values in the list.
    pub fn len(&self) -> (n: usize)
        ensures
            n == self@.len(),
    {
        proof {
            use_type_invariant(self);
        }
        self.len
    }

    /// Links `value` in at `index`; where the list is shorter, at its end.
    pub fn insert(&mut self, index: usize, value: String)
        requires
            old(self)@.len() < usize::MAX,
        ensures
            final(self)@ == inserted_at(old(self)@, index as int, value@),
            index < old(self)@.len() ==> final(self)@ == old(self)@.insert(index as int, value@),
            index >= old(self)@.len() ==> final(self)@ == old(self)@.push(value@),
            final(self)@.len() == old(self)@.len() + 1,
    {
        proof {
            use_type_invariant(&*self);
        }
        let mut taken = List::new();
        std::mem::swap(&mut taken, self);
        proof {
            use_type_invariant(&taken);
        }
        let List { first, len } = taken;
        let new_first = insert_from(first, index, value);
        *self = List { first: new_first, len: len + 1 };
        proof {
            lemma_inserted_at_places(old(self)@, index as int, value@);
            let r = inserted_at(old(self)@, index as int, value@);
            if index < old(self)@.len() {
                assert(r =~= old(self)@.insert(index as int, value@));
            } else {
                assert(r =~= old(self)@.push(value@));
            }
        }
    }

    /// Unlinks the value at `index`; an index past the end, or an empty
    /// list, changes nothing.
    pub fn remove(&mut self, index: usize)
        ensures
            index < old(self)@.len() ==> final(self)@ == old(self)@.remove(index as int),
            index >= old(self)@.len() ==> final(self)@ == old(self)@,
    {
        proof {
            use_type_invariant(&*self);
        }
        if self.len == 0 || index > self.len - 1 {
            return;
        }
        let mut taken = List::new();
        std::mem::swap(&mut taken, self);
        proof {
            use_type_invariant(&taken);
        }
        let List { first, len } = taken;
        let new_first = remove_from(first, index);
        *self = List { first: new_first, len: len - 1 };
    }

    /// Links `value` in at the end.
    pub fn push_back(&mut self, value: String)
        requires
            old(self)@.len() < usize::MAX,
        ensures
            final(self)@ == old(self)@.push(value@),
    {
        proof {
            use_type_invariant(&*self);
        }
        let len = self.len;
        self.insert(len, value);
        assert(final(self)@ =~= old(self)@.push(value@));
    }

    /// The values of the list, first to last.
    pub fn iter(&self) -> (r: Vec<String>)
        ensures
            r@.map_values(|s: String| s@) == self@,
    {
        let mut out: Vec<String> = Vec::new();
        collect_from(&self.first, &mut out);
        assert(out@.map_values(|s: String| s@) =~= self@);
        out
    }
}

/// Inserting `value` at `index` puts it at `index`, or at the end where the
/// list is shorter; the values before that place keep theirs, the values
/// from it on move one place up, and the list grows by one.
pub proof fn lemma_inserted_at_places(values: Seq<Seq<char>>, index: int, value: Seq<char>)
    requires
        0 <= index,
    ensures
        ({
            let r = inserted_at(values, index, value);
            let p = if index < values.len() { index } else { values.len() as int };
            &&& r.len() == values.len() + 1
            &&& r[p] == value
            &&& forall|i: int| 0 <= i < p ==> r[i] == values[i]
            &&& forall|i: int| p < i < r.len() ==> r[i] == values[i - 1]
        }),
{
}

/// Removing at the place where a value was just inserted gives back the list.
pub proof fn lemma_insert_then_remove(values: Seq<Seq<char>>, index: int, value: Seq<char>)
    requires
        0 <= index,
    ensures
        inserted_at(values, index, value).remove(if index < values.len() { index } else { values.len() as int })
            == values,
{
    let p = if index < values.len() { index } else { values.len() as int };
    assert(values.insert(p, value).remove(p) =~= values);
}

} // verus!
