use vstd::prelude::*;
use vstd::std_specs::iter::IteratorSpec;

verus! {

/// The paths that a run was given.
#[derive(Clone, Debug)]
pub struct Opt {
    pub paths: Vec<String>,
}

impl Opt {
    /// The paths to read: those given, or the current directory `.` when none was given.
    pub fn paths(&self) -> (r: Vec<String>)
        ensures
            self.paths@.len() > 0 ==> r@.len() == self.paths@.len() && forall|i: int|
                0 <= i < r@.len() ==> #[trigger] r@[i]@ == self.paths@[i]@,
            self.paths@.len() == 0 ==> r@.len() == 1 && r@[0]@ == seq!['.'],
    {
        let n = self.paths.len();
        let mut r: Vec<String> = Vec::new();
        let mut k: usize = 0;
        while k < n
            invariant
                k <= n,
                n == self.paths@.len(),
                r@.len() == k,
                forall|i: int| 0 <= i < k ==> #[trigger] r@[i]@ == self.paths@[i]@,
            decreases n - k,
        {
            let s = self.paths[k].clone();
            r.push(s);
            k = k + 1;
        }
        if n == 0 {
            let dot = ".".to_owned();
            proof {
                reveal_strlit(".");
            }
            r.push(dot);
        }
        r
    }
}

/// An iterator that hands out the items of `source`, or a single item made by `with` when
/// `source` has none.
pub struct OnceIfEmptyWith<I, F> {
    source: I,
    with: F,
    has_produced: bool,
}

/// Adapters on iterators.
pub trait IterExt: Iterator + Sized {
    /// The items of this iterator, or a single item made by `with` when it has none.
    fn once_if_empty_with<F: FnMut() -> Self::Item>(self, with: F) -> (r: OnceIfEmptyWith<
        Self,
        F,
    >)
        ensures
            r.source() == self,
            r.fallback() == with,
            !r.has_produced(),
    ;
}

impl<T: Iterator> IterExt for T {
    fn once_if_empty_with<F: FnMut() -> T::Item>(self, with: F) -> (r: OnceIfEmptyWith<T, F>) {
        OnceIfEmptyWith { source: self, with, has_produced: false }
    }
}

impl<I, F> OnceIfEmptyWith<I, F> {
    /// The iterator whose items are handed out.
    pub closed spec fn source(&self) -> I {
        self.source
    }

    /// What makes the item handed out when the source has none.
    pub closed spec fn fallback(&self) -> F {
        self.with
    }

    /// Whether an item was handed out already.
    pub closed spec fn has_produced(&self) -> bool {
        self.has_produced
    }
}

impl<I: Iterator, F: FnMut() -> I::Item> OnceIfEmptyWith<I, F> {
    /// The next item of the source; when the source is done, one item made by the fallback if
    /// nothing was handed out yet, then nothing.
    pub fn next(&mut self) -> (r: Option<I::Item>)
        requires
            old(self).has_produced() || call_requires(old(self).fallback(), ()),
        ensures
            final(self).source().obeys_prophetic_iter_laws() == old(
                self,
            ).source().obeys_prophetic_iter_laws(),
            old(self).has_produced() ==> final(self).has_produced(),
            old(self).source().obeys_prophetic_iter_laws() ==> {
                if old(self).source().remaining().len() > 0 {
                    &&& r == Some(old(self).source().remaining()[0])
                    &&& final(self).source().remaining() == old(
                        self,
                    ).source().remaining().drop_first()
                    &&& final(self).fallback() == old(self).fallback()
                    &&& final(self).has_produced()
                } else if old(self).has_produced() {
                    &&& r is None
                    &&& final(self).source().remaining() == old(self).source().remaining()
                    &&& final(self).fallback() == old(self).fallback()
                } else {
                    &&& r matches Some(x) && call_ensures(old(self).fallback(), (), x)
                    &&& final(self).source().remaining() == old(self).source().remaining()
                    &&& final(self).has_produced()
                }
            },
    {
        match self.source.next() {
            None => {
                if self.has_produced {
                    None
                } else {
                    self.has_produced = true;
                    Some((self.with)())
                }
            },
            Some(item) => {
                self.has_produced = true;
                Some(item)
            },
        }
    }
}

} // verus!
