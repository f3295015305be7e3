use vstd::prelude::*;

verus! {

/// Whether a frame record (saved frame pointer, then return address) lies at
/// `fp` inside a copy of stack memory whose word `i` sits at `base + 8 * i`.
/// A null pointer is never a record.
pub open spec fn record_ok(base: u64, words: Seq<u64>, fp: u64) -> bool {
    &&& fp != 0
    &&& fp >= base
    &&& (fp - base) % 8 == 0
    &&& (fp - base) / 8 + 1 < words.len()
}

/// The caller's frame pointer, saved in the record at `fp`.
pub open spec fn saved_fp(base: u64, words: Seq<u64>, fp: u64) -> u64 {
    words[((fp - base) / 8) as int]
}

/// The return address held in the record at `fp`.
pub open spec fn ret_addr(base: u64, words: Seq<u64>, fp: u64) -> u64 {
    words[((fp - base) / 8) as int + 1]
}

/// The return addresses found by following frame pointers from `fp`, at most
/// `depth` of them, innermost first. The walk stops at a pointer that is null
/// or names no record in the copy, and after a record whose saved pointer
/// does not lead further up the stack (to a higher address).
pub open spec fn walk(base: u64, words: Seq<u64>, fp: u64, depth: nat) -> Seq<u64>
    decreases depth,
{
    if depth == 0 || !record_ok(base, words, fp) {
        Seq::empty()
    } else {
        let next = saved_fp(base, words, fp);
        seq![ret_addr(base, words, fp)] + if next > fp {
            walk(base, words, next, (depth - 1) as nat)
        } else {
            Seq::empty()
        }
    }
}

/// Whether `fp` names a frame record inside the copy `words` taken at `base`.
pub fn is_record(base: u64, words: &Vec<u64>, fp: u64) -> (r: bool)
    ensures
        r == record_ok(base, words@, fp),
{
    if fp == 0 || fp < base || (fp - base) % 8 != 0 || words.len() < 2 {
        return false;
    }
    (fp - base) / 8 + 1 < words.len() as u64
}

/// Walks the frame-pointer chain from `fp` through the copy `words` of the
/// target's stack (word `i` at address `base + 8 * i`), collecting at most
/// `max_depth` return addresses, innermost first. Nothing outside the copy
/// is read: a pointer that leaves it ends the walk.
pub fn unwind(base: u64, words: &Vec<u64>, fp: u64, max_depth: usize) -> (r: Vec<u64>)
    ensures
        r@ == walk(base, words@, fp, max_depth as nat),
        r@.len() <= max_depth,
{
    let mut r: Vec<u64> = Vec::new();
    let mut cur: u64 = fp;
    let mut d: usize = max_depth;
    proof {
        lemma_walk_len(base, words@, fp, max_depth as nat);
    }
    loop
        invariant_except_break
            r@ + walk(base, words@, cur, d as nat) == walk(base, words@, fp, max_depth as nat),
        ensures
            r@ == walk(base, words@, fp, max_depth as nat),
        decreases d,
    {
        if d == 0 || !is_record(base, words, cur) {
            proof {
                assert(r@ + walk(base, words@, cur, d as nat) =~= r@);
            }
            break;
        }
        let n: usize = words.len();
        let off: u64 = (cur - base) / 8;
        proof {
            assert(off + 1 < n);
        }
        let idx = off as usize;
        proof {
            assert(idx as int == off as int);
        }
        let next = words[idx];
        let ret = words[idx + 1];
        let ghost w = walk(base, words@, cur, d as nat);
        proof {
            assert(record_ok(base, words@, cur));
            assert(next == saved_fp(base, words@, cur));
            assert(ret == ret_addr(base, words@, cur));
            assert(w == seq![ret] + if next > cur {
                walk(base, words@, next, (d - 1) as nat)
            } else {
                Seq::<u64>::empty()
            });
        }
        let ghost r0 = r@;
        r.push(ret);
        if next > cur {
            proof {
                assert(r0 + w =~= r@ + walk(base, words@, next, (d - 1) as nat));
            }
            cur = next;
            d = d - 1;
        } else {
            proof {
                assert(r0 + w =~= r@);
            }
            break;
        }
    }
    r
}

/// The stack of a thread stopped at instruction `pc`: `pc` itself, then the
/// return addresses that `unwind` finds from `fp`.
pub fn capture_stack(pc: u64, base: u64, words: &Vec<u64>, fp: u64, max_depth: usize) -> (r: Vec<u64>)
    ensures
        r@ == seq![pc] + walk(base, words@, fp, max_depth as nat),
{
    let rest = unwind(base, words, fp, max_depth);
    let mut r: Vec<u64> = Vec::new();
    r.push(pc);
    let mut i: usize = 0;
    while i < rest.len()
        invariant
            i <= rest@.len(),
            r@ == seq![pc] + rest@.subrange(0, i as int),
        decreases rest@.len() - i,
    {
        r.push(rest[i]);
        i = i + 1;
        proof {
            assert(r@ =~= seq![pc] + rest@.subrange(0, i as int));
        }
    }
    proof {
        assert(rest@.subrange(0, rest@.len() as int) =~= rest@);
    }
    r
}

/// A walk yields no more addresses than its depth allows.
pub proof fn lemma_walk_len(base: u64, words: Seq<u64>, fp: u64, depth: nat)
    ensures
        walk(base, words, fp, depth).len() <= depth,
    decreases depth,
{
    if depth > 0 && record_ok(base, words, fp) {
        let next = saved_fp(base, words, fp);
        if next > fp {
            lemma_walk_len(base, words, next, (depth - 1) as nat);
        }
    }
}

/// A chain of `fps.len() - 1` readable records, each saving the next pointer
/// of `fps` and each higher on the stack than the one before, that ends in a
/// null frame pointer yields exactly the return addresses of those records,
/// in order, when the depth allows that many.
pub proof fn lemma_null_frame_pointer_ends_walk(base: u64, words: Seq<u64>, fps: Seq<u64>, depth: nat)
    requires
        fps.len() >= 1,
        fps.last() == 0,
        forall|i: int| 0 <= i < fps.len() - 1 ==> record_ok(base, words, #[trigger] fps[i]),
        forall|i: int| 0 <= i < fps.len() - 1 ==> saved_fp(base, words, #[trigger] fps[i]) == fps[i + 1],
        forall|i: int| 0 <= i < fps.len() - 2 ==> #[trigger] fps[i] < fps[i + 1],
        depth >= fps.len() - 1,
    ensures
        walk(base, words, fps[0], depth) == Seq::new((fps.len() - 1) as nat, |i: int| ret_addr(base, words, fps[i])),
        walk(base, words, fps[0], depth).len() == fps.len() - 1,
    decreases fps.len(),
{
    let n = fps.len() - 1;
    if n == 0 {
        assert(walk(base, words, fps[0], depth) =~= Seq::new(0, |i: int| ret_addr(base, words, fps[i])));
    } else {
        let rest = fps.drop_first();
        assert(record_ok(base, words, fps[0]));
        assert(saved_fp(base, words, fps[0]) == fps[1]);
        if n == 1 {
            assert(fps[1] == 0);
            assert(walk(base, words, fps[0], depth) =~= Seq::new(1, |i: int| ret_addr(base, words, fps[i])));
        } else {
            assert(fps[0] < fps[1]);
            assert forall|i: int| 0 <= i < rest.len() - 1 implies record_ok(base, words, #[trigger] rest[i]) by {
                assert(rest[i] == fps[i + 1]);
            }
            assert forall|i: int| 0 <= i < rest.len() - 1 implies saved_fp(base, words, #[trigger] rest[i]) == rest[i + 1] by {
                assert(rest[i] == fps[i + 1]);
            }
            assert forall|i: int| 0 <= i < rest.len() - 2 implies #[trigger] rest[i] < rest[i + 1] by {
                assert(rest[i] == fps[i + 1]);
            }
            lemma_null_frame_pointer_ends_walk(base, words, rest, (depth - 1) as nat);
            assert(walk(base, words, fps[0], depth) =~= Seq::new(n as nat, |i: int| ret_addr(base, words, fps[i])));
        }
    }
}

} // verus!
