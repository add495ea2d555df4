use vstd::prelude::*;
use vstd::string::StringSliceAdditionalSpecFns;

verus! {

/// Immutable record of one benchmark run's parameters: the target address,
/// the HTTP method and request path to fire at it, how many workers to
/// spawn, and how many requests to submit in total.
#[derive(Clone)]
pub struct Config {
    pub addr: String,
    pub method: String,
    pub path: String,
    pub worker: usize,
    pub counts: usize,
}

impl Config {
    pub fn new(addr: String, method: String, path: String, worker: usize, counts: usize) -> (c:
        Config)
        ensures
            c.addr@ == addr@,
            c.method@ == method@,
            c.path@ == path@,
            c.worker == worker,
            c.counts == counts,
    {
        Config { addr, method, path, worker, counts }
    }
}

/// The bytes are all ASCII decimal digits.
pub open spec fn all_digits(s: Seq<u8>) -> bool {
    forall|i: int| 0 <= i < s.len() ==> 48 <= #[trigger] s[i] <= 57
}

/// The number a run of decimal digits spells.
pub open spec fn dec_val(s: Seq<u8>) -> int
    decreases s.len(),
{
    if s.len() == 0 {
        0
    } else {
        dec_val(s.drop_last()) * 10 + (s.last() - 48)
    }
}

proof fn lemma_dec_val_nonneg(s: Seq<u8>)
    requires
        all_digits(s),
    ensures
        dec_val(s) >= 0,
    decreases s.len(),
{
    if s.len() > 0 {
        lemma_dec_val_nonneg(s.drop_last());
    }
}

/// Reading further digits never shrinks the value: the value of a prefix is a
/// lower bound on the value of the whole run.
proof fn lemma_dec_val_prefix(s: Seq<u8>, n: int)
    requires
        all_digits(s),
        0 <= n <= s.len(),
    ensures
        dec_val(s.subrange(0, n)) <= dec_val(s),
    decreases s.len() - n,
{
    if n == s.len() {
        assert(s.subrange(0, n) =~= s);
    } else {
        let p = s.subrange(0, n);
        let q = s.subrange(0, n + 1);
        assert(q.drop_last() =~= p);
        assert(q.last() == s[n]);
        lemma_dec_val_nonneg(p);
        lemma_dec_val_prefix(s, n + 1);
    }
}

/// Read a worker or request count from its command-line text: the number the
/// string spells, exactly when the string is a nonempty run of decimal digits
/// whose value fits the machine's size type.
pub fn parse_count(s: &str) -> (r: Option<usize>)
    ensures
        match r {
            Some(v) => s.spec_bytes().len() > 0 && all_digits(s.spec_bytes()) && dec_val(
                s.spec_bytes(),
            ) <= usize::MAX && v == dec_val(s.spec_bytes()),
            None => !(s.spec_bytes().len() > 0 && all_digits(s.spec_bytes()) && dec_val(
                s.spec_bytes(),
            ) <= usize::MAX),
        },
{
    let b = s.as_bytes();
    if b.len() == 0 {
        return None;
    }
    let mut acc: usize = 0;
    let mut i: usize = 0;
    while i < b.len()
        invariant
            b@ == s.spec_bytes(),
            0 < b@.len(),
            i <= b@.len(),
            all_digits(b@.subrange(0, i as int)),
            acc == dec_val(b@.subrange(0, i as int)),
        decreases b@.len() - i,
    {
        let c = b[i];
        if c < 48 || c > 57 {
            proof {
                assert(!(48 <= b@[i as int] <= 57));
            }
            return None;
        }
        let d = (c - 48) as usize;
        let ghost p = b@.subrange(0, i as int);
        let ghost q = b@.subrange(0, i as int + 1);
        proof {
            assert(q.drop_last() =~= p);
            assert(q.last() == b@[i as int]);
            assert(dec_val(q) == acc * 10 + d);
        }
        match acc.checked_mul(10) {
            Some(m) => {
                match m.checked_add(d) {
                    Some(next) => {
                        acc = next;
                    },
                    None => {
                        proof {
                            if all_digits(b@) {
                                lemma_dec_val_prefix(b@, i as int + 1);
                            }
                        }
                        return None;
                    },
                }
            },
            None => {
                proof {
                    if all_digits(b@) {
                        lemma_dec_val_prefix(b@, i as int + 1);
                    }
                }
                return None;
            },
        }
        i += 1;
    }
    proof {
        assert(b@.subrange(0, b@.len() as int) =~= b@);
    }
    Some(acc)
}

} // verus!
