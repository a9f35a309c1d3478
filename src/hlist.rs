use vstd::prelude::*;

verus! {

/// A linked list that always holds at least one element.
///
/// Viewed as a sequence whose first element is the head (`val`).
#[derive(Debug)]
pub struct HeadedList<T> {
    val: T,
    next: Option<Box<HeadedList<T>>>,
}

/// The elements of an optional list, or the empty sequence.
pub open spec fn opt_items<T>(l: Option<HeadedList<T>>) -> Seq<T> {
    match l {
        Some(x) => x@,
        None => Seq::empty(),
    }
}

impl<T> HeadedList<T> {
    /// The elements, head first.
    pub closed spec fn items(&self) -> Seq<T>
        decreases self,
    {
        match self.next {
            Some(b) => seq![self.val].add((*b).items()),
            None => seq![self.val],
        }
    }

    pub proof fn lemma_non_empty(&self)
        ensures
            self@.len() >= 1,
        decreases self,
    {
        match self.next {
            Some(b) => (*b).lemma_non_empty(),
            None => {},
        }
    }
}

impl<T> View for HeadedList<T> {
    type V = Seq<T>;

    open spec fn view(&self) -> Seq<T> {
        self.items()
    }
}

impl<T> HeadedList<T> {
    proof fn lemma_unfold(&self)
        ensures
            self@.len() >= 1,
            self@[0] == self.val,
            self@.drop_first() == (match self.next {
                Some(b) => (*b)@,
                None => Seq::<T>::empty(),
            }),
    {
        self.lemma_non_empty();
        match self.next {
            Some(b) => {
                assert(self@.drop_first() =~= (*b)@);
            },
            None => {
                assert(self@.drop_first() =~= Seq::<T>::empty());
            },
        }
    }

    /// A list with `val` in front of the elements of `next`.
    pub fn new(val: T, next: Option<HeadedList<T>>) -> (r: Self)
        ensures
            r@ == seq![val] + opt_items(next),
    {
        let r = HeadedList {
            val,
            next: match next {
                Some(x) => Some(Box::new(x)),
                None => None,
            },
        };
        proof {
            r.lemma_unfold();
            assert(r@ =~= seq![val] + opt_items(next));
        }
        r
    }

    pub fn val(&self) -> (r: &T)
        ensures
            *r == self@[0],
    {
        proof {
            self.lemma_unfold();
        }
        &self.val
    }

    pub fn val_mut(&mut self) -> (r: &mut T)
        ensures
            *r == old(self)@[0],
            final(self)@ == old(self)@.update(0, *final(r)),
    {
        proof {
            self.lemma_unfold();
        }
        &mut self.val
    }
    pub fn val_cpy(&self) -> (r: T) where T: Copy
        ensures
            r == self@[0],
    {
        proof {
            self.lemma_unfold();
        }
        self.val
    }

    /// The list after the head, if there is one.
    pub fn next(&self) -> (r: Option<&HeadedList<T>>)
        ensures
            r is None <==> self@.len() == 1,
            r matches Some(n) ==> n@ == self@.drop_first(),
    {
        proof {
            self.lemma_unfold();
        }
        match &self.next {
            Some(x) => {
                proof {
                    x.lemma_non_empty();
                }
                Some(&**x)
            },
            None => None,
        }
    }

    /// Mutable access to the list after the head, if there is one.
    pub fn next_mut(&mut self) -> (r: Option<&mut HeadedList<T>>)
        ensures
            r is None <==> old(self)@.len() == 1,
            r is None ==> final(self)@ == old(self)@,
            r matches Some(n) ==> n@ == old(self)@.drop_first() && final(self)@ == seq![old(self)@[0]] + final(n)@,
    {
        proof {
            self.lemma_unfold();
        }
        match &mut self.next {
            Some(x) => {
                proof {
                    x.lemma_non_empty();
                }
                Some(&mut **x)
            },
            None => None,
        }
    }

    /// Replaces everything after the head by `next`, and returns what was there.
    pub fn put_next(&mut self, next: Option<HeadedList<T>>) -> (r: Option<HeadedList<T>>)
        ensures
            final(self)@ == seq![old(self)@[0]] + opt_items(next),
            opt_items(r) == old(self)@.drop_first(),
    {
        proof {
            self.lemma_unfold();
        }
        let mut boxed = match next {
            Some(x) => Some(Box::new(x)),
            None => None,
        };
        std::mem::swap(&mut self.next, &mut boxed);
        proof {
            self.lemma_unfold();
            assert(self@ =~= seq![old(self)@[0]] + opt_items(next));
        }
        match boxed {
            Some(x) => Some(*x),
            None => None,
        }
    }

    /// Removes the head and returns it, unless it is the only element.
    pub fn take(&mut self) -> (r: Option<T>)
        ensures
            old(self)@.len() == 1 ==> r is None && final(self)@ == old(self)@,
            old(self)@.len() > 1 ==> r == Some(old(self)@[0]) && final(self)@ == old(self)@.drop_first(),
    {
        proof {
            self.lemma_unfold();
        }
        match self.next.take() {
            Some(node) => {
                let HeadedList { val, next } = *node;
                proof {
                    node.lemma_unfold();
                }
                let mut v = val;
                let mut n = next;
                std::mem::swap(&mut self.next, &mut n);
                std::mem::swap(&mut self.val, &mut v);
                proof {
                    self.lemma_unfold();
                    assert(self@ =~= old(self)@.drop_first());
                }
                Some(v)
            },
            None => None,
        }
    }

    /// Puts `val` in front of the list.
    pub fn receive(&mut self, val: T)
        ensures
            final(self)@ == seq![val] + old(self)@,
    {
        let mut head = HeadedList { val, next: None };
        std::mem::swap(self, &mut head);
        self.next = Some(Box::new(head));
        proof {
            self.lemma_unfold();
            assert(self@ =~= seq![val] + old(self)@);
        }
    }

    /// Splits the list into its head and the rest.
    pub fn reclaim(self) -> (r: (T, Option<HeadedList<T>>))
        ensures
            r.0 == self@[0],
            opt_items(r.1) == self@.drop_first(),
    {
        proof {
            self.lemma_unfold();
        }
        match self.next {
            Some(boxed) => (self.val, Some(*boxed)),
            None => (self.val, None),
        }
    }

    pub fn reclaim_val(self) -> (r: T)
        ensures
            r == self@[0],
    {
        proof {
            self.lemma_unfold();
        }
        self.val
    }
}

} // verus!
