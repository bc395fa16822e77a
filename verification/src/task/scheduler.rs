use vstd::prelude::*;
use core::cmp::Ordering;

verus! {

/// A ready task as the stride scheduler compares it: the task that compares
/// greatest runs next (`Kernel::run_next`), so the order puts the smallest
/// stride first and, among equal strides, the smallest pid.
#[derive(Eq, Debug)]
pub struct Stride {
    pub stride: usize,
    pub pid: usize,
}

/// The stride a task advances by per run at priority 1; at priority `p` it
/// advances by `BIG_STRIDE / p`.
pub const BIG_STRIDE: usize = 65536;

/// `stride` advanced by `pass`, wrapping around past `usize::MAX`.
pub open spec fn advance(stride: usize, pass: usize) -> usize {
    if stride + pass <= usize::MAX {
        (stride + pass) as usize
    } else {
        (stride + pass - usize::MAX - 1) as usize
    }
}

/// `stride` advanced by `pass`, wrapping around past `usize::MAX`.
pub fn advance_stride(stride: usize, pass: usize) -> (r: usize)
    ensures
        r == advance(stride, pass),
{
    if stride <= usize::MAX - pass {
        stride + pass
    } else {
        pass - (usize::MAX - stride) - 1
    }
}

/// Running a task adds its pass to its stride: exactly, when the sum fits in a
/// `usize`, so a run never lowers the stride then; past `usize::MAX` the stride
/// wraps around, as the integer holding it does.
pub proof fn advance_adds_pass(stride: usize, pass: usize)
    ensures
        stride + pass <= usize::MAX ==> advance(stride, pass) == stride + pass,
        stride + pass <= usize::MAX ==> advance(stride, pass) >= stride,
        stride + pass > usize::MAX ==> advance(stride, pass) + usize::MAX + 1 == stride + pass,
{
}

/// How `a` compares to `b` in the scheduler's order.
pub open spec fn stride_order(a: Stride, b: Stride) -> Ordering {
    if a.stride == b.stride {
        if b.pid < a.pid {
            Ordering::Less
        } else if b.pid == a.pid {
            Ordering::Equal
        } else {
            Ordering::Greater
        }
    } else if b.stride < a.stride {
        Ordering::Less
    } else {
        Ordering::Greater
    }
}

/// Whether entry `a` runs before entry `b`: it compares greater.
pub open spec fn runs_before(a: Stride, b: Stride) -> bool {
    stride_order(a, b) == Ordering::Greater
}

/// The order read from the other side.
pub open spec fn flipped(o: Ordering) -> Ordering {
    match o {
        Ordering::Less => Ordering::Greater,
        Ordering::Equal => Ordering::Equal,
        Ordering::Greater => Ordering::Less,
    }
}

impl Stride {
    /// Compares by stride, the smaller stride being greater; on equal strides,
    /// the smaller pid is greater.
    pub fn cmp(&self, other: &Self) -> (r: Ordering)
        ensures
            r == stride_order(*self, *other),
    {
        if self.stride == other.stride {
            if other.pid < self.pid {
                Ordering::Less
            } else if other.pid == self.pid {
                Ordering::Equal
            } else {
                Ordering::Greater
            }
        } else if other.stride < self.stride {
            Ordering::Less
        } else {
            Ordering::Greater
        }
    }
}

impl PartialOrd for Stride {
    fn partial_cmp(&self, other: &Self) -> (r: Option<Ordering>) {
        Some(self.cmp(other))
    }
}

impl vstd::std_specs::cmp::PartialOrdSpecImpl for Stride {
    open spec fn obeys_partial_cmp_spec() -> bool {
        true
    }

    open spec fn partial_cmp_spec(&self, other: &Self) -> Option<Ordering> {
        Some(stride_order(*self, *other))
    }
}

/// No two scheduler entries are ever equal, not even an entry and itself.
impl PartialEq for Stride {
    fn eq(&self, _other: &Self) -> (r: bool) {
        false
    }
}

impl vstd::std_specs::cmp::PartialEqSpecImpl for Stride {
    open spec fn obeys_eq_spec() -> bool {
        true
    }

    open spec fn eq_spec(&self, other: &Self) -> bool {
        false
    }
}

/// The scheduler's order is antisymmetric: comparing the other way round gives
/// the opposite answer.
pub proof fn stride_order_antisymmetric(a: Stride, b: Stride)
    ensures
        stride_order(b, a) == flipped(stride_order(a, b)),
{
}

/// The scheduler's order is transitive, so the task that runs next is well defined.
pub proof fn stride_order_transitive(a: Stride, b: Stride, c: Stride)
    requires
        stride_order(a, b) == Ordering::Greater,
        stride_order(b, c) == Ordering::Greater,
    ensures
        stride_order(a, c) == Ordering::Greater,
{
}

/// Two entries compare equal exactly when they carry the same stride and pid.
pub proof fn stride_order_equal(a: Stride, b: Stride)
    ensures
        (stride_order(a, b) == Ordering::Equal) <==> (a.stride == b.stride && a.pid == b.pid),
{
}

/// The entry that compares greater, and so runs first, is the one with the
/// smaller stride, or with the smaller pid when the strides are equal.
pub proof fn stride_order_prefers_small_stride(a: Stride, b: Stride)
    ensures
        (stride_order(a, b) == Ordering::Greater) <==> (a.stride < b.stride || (a.stride == b.stride
            && a.pid < b.pid)),
{
}

} // verus!
