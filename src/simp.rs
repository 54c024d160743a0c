use vstd::prelude::*;

use crate::internal_ast::KupoParseError;
use crate::located::Located;

verus! {

pub type Errors = Vec<Located<KupoParseError>>;

/// A simplification in progress, or the errors that stopped it.
pub enum Simp<T> {
    InProgress(T),
    Failed(Errors),
}

/// The errors a simplification carries: none while in progress.
pub open spec fn simp_errors<T>(s: Simp<T>) -> Seq<Located<KupoParseError>> {
    match s {
        Simp::InProgress(_) => Seq::empty(),
        Simp::Failed(e) => e@,
    }
}

/// The errors of a sequence of simplifications, in order.
pub open spec fn all_errors<T>(s: Seq<Simp<T>>) -> Seq<Located<KupoParseError>>
    decreases s.len(),
{
    if s.len() == 0 {
        Seq::empty()
    } else {
        all_errors(s.drop_last()) + simp_errors(s.last())
    }
}

pub open spec fn all_in_progress<T>(s: Seq<Simp<T>>) -> bool {
    forall|i: int| 0 <= i < s.len() ==> #[trigger] s[i] is InProgress
}

impl<T> Simp<T> {
    pub fn new(t: T) -> (r: Simp<T>)
        ensures
            r == Simp::InProgress(t),
    {
        Simp::InProgress(t)
    }

    pub fn fail(e: Located<KupoParseError>) -> (r: Simp<T>)
        ensures
            r is Failed,
            simp_errors(r) == seq![e],
    {
        Simp::Failed(vec![e])
    }

    /// Collects the values of all the simplifications, or all their errors in order.
    pub fn concat(simps: Vec<Simp<T>>) -> (r: Simp<Vec<T>>)
        ensures
            r is InProgress <==> all_in_progress(simps@),
            simp_errors(r) == all_errors(simps@),
            r matches Simp::InProgress(v) ==> v@.len() == simps@.len() && forall|i: int|
                0 <= i < v@.len() ==> simps@[i] == Simp::InProgress(#[trigger] v@[i]),
    {
        let ghost all = simps@;
        let mut simps = simps;
        let total = simps.len();
        let mut result: Simp<Vec<T>> = Simp::new(Vec::new());
        let mut k: usize = 0;
        while simps.len() > 0
            invariant
                k + simps@.len() == all.len(),
                all.len() == total,
                simps@ == all.subrange(k as int, all.len() as int),
                result is InProgress <==> all_in_progress(all.take(k as int)),
                simp_errors(result) == all_errors(all.take(k as int)),
                result matches Simp::InProgress(v) ==> v@.len() == k && forall|i: int|
                    0 <= i < k ==> all[i] == Simp::InProgress(#[trigger] v@[i]),
            decreases simps@.len(),
        {
            let simp = simps.remove(0);
            proof {
                assert(all.take(k + 1) =~= all.take(k as int).push(all[k as int]));
                assert(all.take(k + 1).drop_last() =~= all.take(k as int));
                assert(simp == all[k as int]);
                assert(all_in_progress(all.take(k + 1)) <==> all_in_progress(all.take(k as int)) && simp is InProgress) by {
                    if all_in_progress(all.take(k + 1)) {
                        assert(all.take(k + 1)[k as int] is InProgress);
                        assert forall|i: int| 0 <= i < k implies #[trigger] all.take(k as int)[i] is InProgress by {
                            assert(all.take(k + 1)[i] is InProgress);
                        }
                    }
                }
            }
            result = match (result, simp) {
                (Simp::InProgress(mut v), Simp::InProgress(t)) => {
                    v.push(t);
                    Simp::InProgress(v)
                },
                (Simp::Failed(mut e), Simp::Failed(e2)) => {
                    let mut e2 = e2;
                    e.append(&mut e2);
                    Simp::Failed(e)
                },
                (Simp::Failed(e), Simp::InProgress(_)) => Simp::Failed(e),
                (Simp::InProgress(_), Simp::Failed(e)) => Simp::Failed(e),
            };
            proof {
                assert(simps@ =~= all.subrange(k + 1, all.len() as int));
            }
            k = k + 1;
        }
        assert(all.take(k as int) =~= all);
        result
    }

    /// Applies `f` to the value, if the simplification is still in progress.
    pub fn simpmap<T2, F: FnOnce(T) -> T2>(self, f: F) -> (r: Simp<T2>)
        requires
            self matches Simp::InProgress(t) ==> f.requires((t,)),
        ensures
            r is InProgress <==> self is InProgress,
            simp_errors(r) == simp_errors(self),
            self matches Simp::InProgress(t) ==> (r matches Simp::InProgress(t2) && f.ensures((t,), t2)),
    {
        match self {
            Simp::InProgress(t) => Simp::InProgress(f(t)),
            Simp::Failed(e) => Simp::Failed(e),
        }
    }

    /// Simplifies an optional value with `f`; no value simplifies to `None`.
    pub fn new_with_optional<T2, F: FnOnce(T) -> Simp<T2>>(value: Option<T>, f: F) -> (r: Simp<Option<T2>>)
        requires
            value matches Some(t) ==> f.requires((t,)),
        ensures
            value is None ==> r == Simp::<Option<T2>>::InProgress(None),
            value matches Some(t) ==> exists|s: Simp<T2>|
                #[trigger] f.ensures((t,), s) && simp_errors(r) == simp_errors(s) && (r is InProgress
                    <==> s is InProgress) && (s matches Simp::InProgress(t2) ==> r == Simp::InProgress(
                    Some(t2),
                )),
    {
        match value {
            Some(t) => {
                let s = f(t);
                match s {
                    Simp::InProgress(t2) => Simp::InProgress(Some(t2)),
                    Simp::Failed(e) => Simp::Failed(e),
                }
            },
            None => Simp::InProgress(None),
        }
    }

    /// Combines two simplifications: both values through `merge`, or all the errors.
    pub fn merge<T2, T3, F: FnOnce(T, T2) -> T3>(self, s: Simp<T2>, merge: F) -> (r: Simp<T3>)
        requires
            self matches Simp::InProgress(a) ==> s matches Simp::InProgress(b) ==> merge.requires((a, b)),
        ensures
            r is InProgress <==> self is InProgress && s is InProgress,
            simp_errors(r) == simp_errors(self) + simp_errors(s),
            self matches Simp::InProgress(a) ==> s matches Simp::InProgress(b) ==> r matches Simp::InProgress(c)
                && merge.ensures((a, b), c),
    {
        match (self, s) {
            (Simp::InProgress(t), Simp::InProgress(t2)) => Simp::InProgress(merge(t, t2)),
            (Simp::Failed(e), Simp::Failed(e2)) => {
                let mut e = e;
                let mut e2 = e2;
                e.append(&mut e2);
                Simp::Failed(e)
            },
            (Simp::Failed(e), _) => {
                assert(e@ + Seq::<Located<KupoParseError>>::empty() =~= e@);
                Simp::Failed(e)
            },
            (_, Simp::Failed(e)) => {
                assert(Seq::<Located<KupoParseError>>::empty() + e@ =~= e@);
                Simp::Failed(e)
            },
        }
    }

    /// Combines `s` into this simplification in place: both values through `merge`, or
    /// all the errors.
    pub fn merge_mut<T2, F: FnOnce(T, T2) -> T>(&mut self, s: Simp<T2>, merge: F)
        requires
            *old(self) matches Simp::InProgress(a) ==> s matches Simp::InProgress(b) ==> merge.requires((a, b)),
        ensures
            *final(self) is InProgress <==> *old(self) is InProgress && s is InProgress,
            simp_errors(*final(self)) == simp_errors(*old(self)) + simp_errors(s),
            *old(self) matches Simp::InProgress(a) ==> s matches Simp::InProgress(b) ==> *final(self) matches Simp::InProgress(c)
                && merge.ensures((a, b), c),
    {
        let mut this = Simp::Failed(Vec::new());
        std::mem::swap(self, &mut this);
        *self = this.merge(s, merge);
    }

    pub fn tup2<T2>(s: Simp<T>, s2: Simp<T2>) -> (r: Simp<(T, T2)>)
        ensures
            r is InProgress <==> s is InProgress && s2 is InProgress,
            simp_errors(r) == simp_errors(s) + simp_errors(s2),
            s matches Simp::InProgress(a) ==> s2 matches Simp::InProgress(b) ==> r == Simp::InProgress((a, b)),
    {
        s.merge(s2, |x: T, y: T2| -> (p: (T, T2))
            ensures
                p == (x, y),
            { (x, y) })
    }

    pub fn tup3<T2, T3>(s: Simp<T>, s2: Simp<T2>, s3: Simp<T3>) -> (r: Simp<(T, T2, T3)>)
        ensures
            r is InProgress <==> s is InProgress && s2 is InProgress && s3 is InProgress,
            simp_errors(r) == simp_errors(s) + simp_errors(s2) + simp_errors(s3),
            s matches Simp::InProgress(a) ==> s2 matches Simp::InProgress(b) ==> s3 matches Simp::InProgress(c)
                ==> r == Simp::InProgress((a, b, c)),
    {
        Self::tup2(s, s2).merge(s3, |xy: (T, T2), z: T3| -> (p: (T, T2, T3))
            ensures
                p == (xy.0, xy.1, z),
            { (xy.0, xy.1, z) })
    }

    pub fn tup4<T2, T3, T4>(s: Simp<T>, s2: Simp<T2>, s3: Simp<T3>, s4: Simp<T4>) -> (r: Simp<(T, T2, T3, T4)>)
        ensures
            r is InProgress <==> s is InProgress && s2 is InProgress && s3 is InProgress && s4 is InProgress,
            simp_errors(r) == simp_errors(s) + simp_errors(s2) + simp_errors(s3) + simp_errors(s4),
            s matches Simp::InProgress(a) ==> s2 matches Simp::InProgress(b) ==> s3 matches Simp::InProgress(c)
                ==> s4 matches Simp::InProgress(d) ==> r == Simp::InProgress((a, b, c, d)),
    {
        Self::tup3(s, s2, s3).merge(s4, |xyz: (T, T2, T3), w: T4| -> (p: (T, T2, T3, T4))
            ensures
                p == (xyz.0, xyz.1, xyz.2, w),
            { (xyz.0, xyz.1, xyz.2, w) })
    }

    pub fn to_result(self) -> (r: Result<T, Errors>)
        ensures
            self matches Simp::InProgress(t) ==> r == Ok::<T, Errors>(t),
            self matches Simp::Failed(e) ==> r == Err::<T, Errors>(e),
    {
        match self {
            Simp::InProgress(t) => Ok(t),
            Simp::Failed(e) => Err(e),
        }
    }
}

} // verus!
