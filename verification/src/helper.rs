use vstd::prelude::*;

verus! {

/// Addition that reports overflow instead of wrapping.
pub trait SafeAdd: Sized {
    /// The sum, or `None` when it does not fit.
    spec fn added(&self, n: &Self) -> Option<Self>;

    fn safe_add(&self, n: &Self) -> (r: Option<Self>)
        ensures
            r == self.added(n),
    ;
}

impl SafeAdd for usize {
    open spec fn added(&self, n: &usize) -> Option<usize> {
        if *self + *n <= usize::MAX {
            Some((*self + *n) as usize)
        } else {
            None
        }
    }

    fn safe_add(&self, n: &usize) -> (r: Option<usize>) {
        self.checked_add(*n)
    }
}

/// Adds `src` to `dst`; on overflow leaves `dst` as it was and returns the
/// error that `f` makes.
pub fn safe_add<T, F, E>(dst: &mut T, src: &T, f: F) -> (r: Result<(), E>) where
    T: SafeAdd,
    F: Fn() -> E,

    requires
        f.requires(()),
    ensures
        match old(dst).added(src) {
            Some(n) => r is Ok && *final(dst) == n,
            None => {
                &&& *final(dst) == *old(dst)
                &&& r matches Err(e) && f.ensures((), e)
            },
        },
{
    if let Some(n) = dst.safe_add(src) {
        *dst = n;
        Ok(())
    } else {
        Err(f())
    }
}

} // verus!
