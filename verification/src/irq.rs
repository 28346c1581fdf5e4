//! Interrupt management: per-line counters, platform-independent
//! dispatch through the shared handler table, and the synthetic
//! `interrupts` file that reports the statistics as text.

use vstd::prelude::*;
use vstd::slice::slice_to_vec;

use crate::types::{FsError, NodeAttr, NodeType};

verus! {

/// The number of interrupt lines the platform supports.
pub const MAX_IRQ_COUNT: usize = 256;

/// The lock-free table of registered interrupt handlers.
#[verifier::external_type_specification]
#[verifier::external_body]
pub struct ExHandlerTable<const N: usize>(handler_table::HandlerTable<N>);

/// Relies on handler_table::HandlerTable::new: an empty table.
#[verifier::external_body]
fn table_new<const N: usize>() -> handler_table::HandlerTable<N> {
    handler_table::HandlerTable::new()
}

/// Relies on handler_table::HandlerTable::handle: false when the index
/// is out of bounds; otherwise it runs the registered handler, whose
/// presence depends on the table's concurrent state.
#[verifier::external_body]
fn table_handle<const N: usize>(table: &handler_table::HandlerTable<N>, idx: usize) -> (r: bool)
    ensures
        idx >= N ==> !r,
{
    table.handle(idx)
}

/// A fresh, empty interrupt handler table of the platform's size.
pub fn new_irq_handler_table() -> handler_table::HandlerTable<MAX_IRQ_COUNT> {
    table_new()
}

/// Platform-independent dispatch: runs the registered handler for the
/// line and reports whether one was present.
pub fn dispatch_irq_common(
    table: &handler_table::HandlerTable<MAX_IRQ_COUNT>,
    irq_num: usize,
) -> (r: bool)
    ensures
        irq_num >= MAX_IRQ_COUNT ==> !r,
{
    table_handle(table, irq_num)
}

/// One counter per interrupt line.
pub struct IrqCounters {
    pub counts: Vec<u64>,
}

/// A counter wraps around at the top, as a relaxed fetch-add does.
pub open spec fn wrap_inc(x: u64) -> u64 {
    if x == u64::MAX {
        0
    } else {
        (x + 1) as u64
    }
}

impl IrqCounters {
    /// All lines present and zero.
    pub fn new() -> (r: IrqCounters)
        ensures
            r.counts@.len() == MAX_IRQ_COUNT,
            forall|i: int| 0 <= i < r.counts@.len() ==> r.counts@[i] == 0,
    {
        let mut counts: Vec<u64> = Vec::new();
        let mut i: usize = 0;
        while i < MAX_IRQ_COUNT
            invariant
                i <= MAX_IRQ_COUNT,
                counts@.len() == i,
                forall|j: int| 0 <= j < i ==> counts@[j] == 0,
            decreases MAX_IRQ_COUNT - i,
        {
            counts.push(0);
            i = i + 1;
        }
        IrqCounters { counts }
    }

    /// Counts one occurrence of the line, when it is in range; the
    /// counter wraps at the top.
    pub fn increment_irq_count(&mut self, irq_num: usize)
        ensures
            irq_num < old(self).counts@.len() ==> final(self).counts@ == old(self).counts@.update(
                irq_num as int,
                wrap_inc(old(self).counts@[irq_num as int]),
            ),
            irq_num >= old(self).counts@.len() ==> final(self).counts@ == old(self).counts@,
    {
        if irq_num < self.counts.len() {
            let c = self.counts[irq_num];
            let nc: u64 = if c == u64::MAX {
                0
            } else {
                c + 1
            };
            self.counts[irq_num] = nc;
        }
    }

    /// A copy of every line's count.
    pub fn get_all_irq_counts(&self) -> (r: Vec<u64>)
        ensures
            r@ == self.counts@,
    {
        slice_to_vec(self.counts.as_slice())
    }
}

/// The decimal digits of `n`, most significant first.
pub open spec fn dec_spec(n: nat) -> Seq<u8>
    decreases n,
{
    if n < 10 {
        seq![(48 + n) as u8]
    } else {
        dec_spec(n / 10).push((48 + n % 10) as u8)
    }
}

/// Renders `n` in decimal.
pub fn u64_to_dec(n: u64) -> (r: Vec<u8>)
    ensures
        r@ == dec_spec(n as nat),
{
    let mut digits: Vec<u8> = Vec::new();
    let mut m = n;
    loop
        invariant_except_break
            dec_spec(n as nat) == dec_spec(m as nat) + digits@.reverse(),
        ensures
            dec_spec(n as nat) == digits@.reverse(),
        decreases m,
    {
        let ghost before = digits@;
        let d: u8 = (48 + (m % 10)) as u8;
        digits.push(d);
        proof {
            assert(digits@ =~= before.push(d));
            assert(before.push(d).reverse() =~= seq![d] + before.reverse());
            if m >= 10 {
                assert(dec_spec(m as nat) == dec_spec((m as nat) / 10).push(d));
                assert(dec_spec((m as nat) / 10) + (seq![d] + before.reverse()) =~= (dec_spec(
                    (m as nat) / 10,
                ).push(d)) + before.reverse());
                assert((m / 10) as nat == (m as nat) / 10);
            } else {
                assert(dec_spec(m as nat) =~= seq![d]);
                assert(seq![d] + before.reverse() =~= dec_spec(m as nat) + before.reverse());
            }
        }
        if m < 10 {
            proof {
                assert(dec_spec(m as nat) + before.reverse() =~= digits@.reverse());
            }
            break;
        }
        m = m / 10;
    }
    // reverse into the output
    let mut out: Vec<u8> = Vec::new();
    let mut k: usize = digits.len();
    while k > 0
        invariant
            k <= digits@.len(),
            out@.len() == digits@.len() - k,
            forall|j: int|
                0 <= j < out@.len() ==> out@[j] == digits@[digits@.len() - 1 - j],
        decreases k,
    {
        k = k - 1;
        out.push(digits[k]);
    }
    proof {
        assert(out@ =~= digits@.reverse());
    }
    out
}

/// The line the statistics file shows for one active interrupt:
/// `<line>:\t\t<count>\n`.
pub open spec fn irq_line(i: nat, c: u64) -> Seq<u8> {
    dec_spec(i) + seq![58u8, 9u8, 9u8] + dec_spec(c as nat) + seq![10u8]
}

/// The concatenated lines for the first `k` counters, skipping the
/// zero ones.
pub open spec fn content_upto(counts: Seq<u64>, k: int) -> Seq<u8>
    decreases k,
{
    if k <= 0 {
        Seq::empty()
    } else {
        content_upto(counts, k - 1) + (if counts[k - 1] > 0 {
            irq_line((k - 1) as nat, counts[k - 1])
        } else {
            Seq::empty()
        })
    }
}

/// The text `"No IRQ activity detected\n"`, shown when every counter
/// is zero.
pub open spec fn no_activity_text() -> Seq<u8> {
    seq![
        78u8, 111u8, 32u8, 73u8, 82u8, 81u8, 32u8, 97u8, 99u8, 116u8, 105u8, 118u8, 105u8, 116u8,
        121u8, 32u8, 100u8, 101u8, 116u8, 101u8, 99u8, 116u8, 101u8, 100u8, 10u8,
    ]
}

/// The whole content of the statistics file: one line per interrupt
/// line with a nonzero count, or the no-activity text.
pub open spec fn interrupts_text(counts: Seq<u64>) -> Seq<u8> {
    let all = content_upto(counts, counts.len() as int);
    if all.len() == 0 {
        no_activity_text()
    } else {
        all
    }
}

/// Renders the statistics file's content.
pub fn interrupts_content(counts: &Vec<u64>) -> (r: Vec<u8>)
    ensures
        r@ == interrupts_text(counts@),
{
    let mut out: Vec<u8> = Vec::new();
    let mut i: usize = 0;
    proof {
        assert(out@ =~= content_upto(counts@, 0));
    }
    while i < counts.len()
        invariant
            i <= counts@.len(),
            out@ == content_upto(counts@, i as int),
        decreases counts@.len() - i,
    {
        let ghost before = out@;
        if counts[i] > 0 {
            let line_no = u64_to_dec(i as u64);
            out.extend_from_slice(line_no.as_slice());
            out.push(58);
            out.push(9);
            out.push(9);
            let cnt = u64_to_dec(counts[i]);
            out.extend_from_slice(cnt.as_slice());
            out.push(10);
            proof {
                assert(out@ =~= before + irq_line(i as nat, counts@[i as int]));
            }
        }
        proof {
            assert(out@ =~= content_upto(counts@, i + 1));
        }
        i = i + 1;
    }
    if out.len() == 0 {
        let mut msg: Vec<u8> = Vec::new();
        // "No IRQ activity detected\n"
        msg.push(78);
        msg.push(111);
        msg.push(32);
        msg.push(73);
        msg.push(82);
        msg.push(81);
        msg.push(32);
        msg.push(97);
        msg.push(99);
        msg.push(116);
        msg.push(105);
        msg.push(118);
        msg.push(105);
        msg.push(116);
        msg.push(121);
        msg.push(32);
        msg.push(100);
        msg.push(101);
        msg.push(116);
        msg.push(101);
        msg.push(99);
        msg.push(116);
        msg.push(101);
        msg.push(100);
        msg.push(10);
        proof {
            assert(msg@ =~= no_activity_text());
        }
        msg
    } else {
        out
    }
}

/// The slice of `content` a read at `offset` of at most `cap` bytes
/// returns: reads beyond the end return nothing.
pub open spec fn read_window(content: Seq<u8>, offset: u64, cap: usize) -> Seq<u8> {
    if offset >= content.len() {
        Seq::empty()
    } else if offset + cap >= content.len() {
        content.skip(offset as int)
    } else {
        content.subrange(offset as int, offset + cap)
    }
}

/// The synthetic read-only file at `/proc/interrupts`.
pub struct InterruptFile;

impl InterruptFile {
    /// A read-only regular file.
    pub fn get_attr(&self) -> (r: Result<NodeAttr, FsError>)
        ensures
            r == Ok::<NodeAttr, FsError>(
                NodeAttr { perm: 0o444, ty: NodeType::File, size: 0 },
            ),
    {
        Ok(NodeAttr { perm: 0o444, ty: NodeType::File, size: 0 })
    }

    /// Reads up to `cap` bytes of the statistics text at `offset`.
    pub fn read_at(&self, counters: &IrqCounters, offset: u64, cap: usize) -> (r: Result<
        Vec<u8>,
        FsError,
    >)
        ensures
            match r {
                Ok(v) => v@ == read_window(interrupts_text(counters.counts@), offset, cap),
                Err(_) => false,
            },
    {
        let content = interrupts_content(&counters.counts);
        if offset >= content.len() as u64 {
            let empty: Vec<u8> = Vec::new();
            proof {
                assert(empty@ =~= read_window(interrupts_text(counters.counts@), offset, cap));
            }
            return Ok(empty);
        }
        let off = offset as usize;
        let end: usize = if content.len() - off <= cap {
            content.len()
        } else {
            off + cap
        };
        let window = slice_to_vec(&content.as_slice()[off..end]);
        proof {
            assert(window@ =~= read_window(interrupts_text(counters.counts@), offset, cap));
        }
        Ok(window)
    }

    /// The file is read-only.
    pub fn write_at(&self, _offset: u64, _buf: &[u8]) -> (r: Result<usize, FsError>)
        ensures
            r == Err::<usize, FsError>(FsError::PermissionDenied),
    {
        Err(FsError::PermissionDenied)
    }

    /// The file cannot be resized.
    pub fn truncate(&self, _size: u64) -> (r: Result<(), FsError>)
        ensures
            r == Err::<(), FsError>(FsError::Unsupported),
    {
        Err(FsError::Unsupported)
    }
}

} // verus!
