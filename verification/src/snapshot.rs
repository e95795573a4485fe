use vstd::prelude::*;

verus! {

/// The bytes of `snapshot_`.
pub open spec fn name_head() -> Seq<u8> {
    seq![115u8, 110u8, 97u8, 112u8, 115u8, 104u8, 111u8, 116u8, 95u8]
}

/// The bytes of `.bin`.
pub open spec fn name_tail() -> Seq<u8> {
    seq![46u8, 98u8, 105u8, 110u8]
}

/// The decimal digits of `n`, as ASCII bytes.
pub open spec fn decimal(n: nat) -> Seq<u8>
    decreases n,
{
    if n < 10 {
        seq![(48 + n) as u8]
    } else {
        decimal(n / 10).push((48 + n % 10) as u8)
    }
}

/// The number that the decimal digits `s` write, if `s` is one digit or
/// more and nothing else.
pub open spec fn digits_value(s: Seq<u8>) -> Option<nat>
    decreases s.len(),
{
    if s.len() == 0 {
        None
    } else if !(48 <= s.last() <= 57) {
        None
    } else if s.len() == 1 {
        Some((s.last() - 48) as nat)
    } else {
        match digits_value(s.drop_last()) {
            Some(v) => Some(v * 10 + (s.last() - 48) as nat),
            None => None,
        }
    }
}

/// The name of the snapshot file of sequence number `seq_id`:
/// `snapshot_`, the number in decimal, `.bin`.
pub open spec fn snapshot_name(seq_id: u64) -> Seq<u8> {
    name_head() + decimal(seq_id as nat) + name_tail()
}

/// The sequence number that a file name carries, if it is the name of a
/// snapshot file.
pub open spec fn snapshot_seq(name: Seq<u8>) -> Option<u64> {
    if name.len() > 13 && name.subrange(0, 9) == name_head() && name.subrange(
        name.len() - 4,
        name.len() as int,
    ) == name_tail() {
        match digits_value(name.subrange(9, name.len() - 4)) {
            Some(v) => if v <= u64::MAX {
                Some(v as u64)
            } else {
                None
            },
            None => None,
        }
    } else {
        None
    }
}

/// The decimal digits of a number write that number.
pub proof fn lemma_decimal_value(n: nat)
    ensures
        digits_value(decimal(n)) == Some(n),
        decimal(n).len() >= 1,
    decreases n,
{
    if n < 10 {
        assert(decimal(n).last() == (48 + n) as u8);
    } else {
        lemma_decimal_value(n / 10);
        let d = decimal(n);
        assert(d.drop_last() =~= decimal(n / 10));
        assert(d.last() == (48 + n % 10) as u8);
    }
}

/// A snapshot file's name carries its sequence number.
pub proof fn law_snapshot_name_round_trip(seq_id: u64)
    ensures
        snapshot_seq(snapshot_name(seq_id)) == Some(seq_id),
{
    let name = snapshot_name(seq_id);
    let d = decimal(seq_id as nat);
    lemma_decimal_value(seq_id as nat);
    assert(name.subrange(0, 9) =~= name_head());
    assert(name.subrange(name.len() - 4, name.len() as int) =~= name_tail());
    assert(name.subrange(9, name.len() - 4) =~= d);
}

/// Where snapshots are kept. The files themselves are read and written
/// elsewhere; the store knows their names.
pub struct SnapshotStore {
    pub base_path: String,
}

impl SnapshotStore {
    pub fn new(path: String) -> (s: Self)
        ensures
            s.base_path == path,
    {
        SnapshotStore { base_path: path }
    }

    /// Appends the decimal digits of `n` to `out`.
    pub fn push_decimal(out: &mut Vec<u8>, n: u64)
        ensures
            final(out)@ == old(out)@ + decimal(n as nat),
        decreases n,
    {
        if n >= 10 {
            Self::push_decimal(out, n / 10);
        }
        out.push(48 + (n % 10) as u8);
        proof {
            if n >= 10 {
                assert(out@ =~= old(out)@ + decimal(n as nat));
            } else {
                assert(out@ =~= old(out)@ + decimal(n as nat));
            }
        }
    }

    /// The name of the snapshot file of sequence number `seq_id`.
    pub fn file_name(seq_id: u64) -> (name: Vec<u8>)
        ensures
            name@ == snapshot_name(seq_id),
    {
        let mut name: Vec<u8> = Vec::new();
        name.push(115);
        name.push(110);
        name.push(97);
        name.push(112);
        name.push(115);
        name.push(104);
        name.push(111);
        name.push(116);
        name.push(95);
        assert(name@ =~= name_head());
        Self::push_decimal(&mut name, seq_id);
        name.push(46);
        name.push(98);
        name.push(105);
        name.push(110);
        assert(name@ =~= snapshot_name(seq_id));
        name
    }

    /// The sequence number that a file name carries, if it is the name of
    /// a snapshot file.
    pub fn parse_name(name: &Vec<u8>) -> (r: Option<u64>)
        ensures
            r == snapshot_seq(name@),
    {
        let n: usize = name.len();
        if n <= 13 {
            return None;
        }
        let head_ok: bool = name[0] == 115 && name[1] == 110 && name[2] == 97 && name[3] == 112
            && name[4] == 115 && name[5] == 104 && name[6] == 111 && name[7] == 116 && name[8]
            == 95;
        let tail_ok: bool = name[n - 4] == 46 && name[n - 3] == 98 && name[n - 2] == 105 && name[n
            - 1] == 110;
        proof {
            let h = name@.subrange(0, 9);
            let t = name@.subrange(n - 4, n as int);
            if head_ok {
                assert(h =~= name_head());
            } else {
                assert(h[0] == name@[0] && h[1] == name@[1] && h[2] == name@[2] && h[3]
                    == name@[3] && h[4] == name@[4] && h[5] == name@[5] && h[6] == name@[6]
                    && h[7] == name@[7] && h[8] == name@[8]);
            }
            if tail_ok {
                assert(t =~= name_tail());
            } else {
                assert(t[0] == name@[n - 4] && t[1] == name@[n - 3] && t[2] == name@[n - 2]
                    && t[3] == name@[n - 1]);
            }
        }
        if !head_ok || !tail_ok {
            return None;
        }
        let ghost digits = name@.subrange(9, n - 4);
        let mut value: u64 = 0;
        let mut i: usize = 9;
        proof {
            assert(digits.subrange(0, 0) =~= Seq::<u8>::empty());
        }
        while i < n - 4
            invariant
                9 <= i <= n - 4,
                n == name@.len(),
                digits == name@.subrange(9, n - 4),
                i > 9 ==> digits_value(digits.subrange(0, i - 9)) == Some(value as nat),
                i == 9 ==> value == 0,
            decreases n - i,
        {
            let b: u8 = name[i];
            let ghost upto = digits.subrange(0, i - 9 + 1);
            proof {
                assert(upto.last() == b);
                assert(upto.drop_last() =~= digits.subrange(0, i - 9));
            }
            if b < 48 || b > 57 {
                proof {
                    lemma_digits_prefix(digits, i - 9 + 1);
                }
                return None;
            }
            let d: u64 = (b - 48) as u64;
            let next: Option<u64> = match value.checked_mul(10) {
                Some(v) => v.checked_add(d),
                None => None,
            };
            match next {
                Some(v) => {
                    value = v;
                },
                None => {
                    proof {
                        lemma_digits_grow(digits, i - 9 + 1);
                    }
                    return None;
                },
            }
            i = i + 1;
        }
        proof {
            assert(digits.subrange(0, n - 13) =~= digits);
        }
        Some(value)
    }

    /// The greatest sequence number among the snapshot files of `names`,
    /// if there is any.
    pub fn get_latest_seq_id(names: &Vec<Vec<u8>>) -> (r: Option<u64>)
        ensures
            match r {
                Some(m) => (exists|i: int|
                    0 <= i < names@.len() && snapshot_seq(#[trigger] names@[i]@) == Some(m))
                    && forall|i: int|
                    0 <= i < names@.len() ==> match snapshot_seq(#[trigger] names@[i]@) {
                        Some(s) => s <= m,
                        None => true,
                    },
                None => forall|i: int|
                    0 <= i < names@.len() ==> snapshot_seq(#[trigger] names@[i]@).is_none(),
            },
    {
        let n: usize = names.len();
        let mut best: Option<u64> = None;
        let mut i: usize = 0;
        while i < n
            invariant
                i <= n,
                n == names@.len(),
                match best {
                    Some(m) => (exists|k: int|
                        0 <= k < i && snapshot_seq(#[trigger] names@[k]@) == Some(m))
                        && forall|k: int|
                        0 <= k < i ==> match snapshot_seq(#[trigger] names@[k]@) {
                            Some(s) => s <= m,
                            None => true,
                        },
                    None => forall|k: int|
                        0 <= k < i ==> snapshot_seq(#[trigger] names@[k]@).is_none(),
                },
            decreases n - i,
        {
            match Self::parse_name(&names[i]) {
                Some(s) => {
                    let better: bool = match best {
                        Some(m) => s > m,
                        None => true,
                    };
                    if better {
                        best = Some(s);
                    }
                },
                None => {},
            }
            i = i + 1;
        }
        best
    }
}

/// Digits with something else among the first `k` bytes write no number.
pub proof fn lemma_digits_prefix(s: Seq<u8>, k: int)
    requires
        0 < k <= s.len(),
        digits_value(s.subrange(0, k)).is_none(),
    ensures
        digits_value(s).is_none(),
    decreases s.len() - k,
{
    if k < s.len() {
        let longer = s.subrange(0, k + 1);
        assert(longer.drop_last() =~= s.subrange(0, k));
        lemma_digits_prefix(s, k + 1);
    } else {
        assert(s.subrange(0, k) =~= s);
    }
}

/// Digits whose first `k` write a number above the 64-bit range write, as
/// a whole, a number above it too, or none.
pub proof fn lemma_digits_grow(s: Seq<u8>, k: int)
    requires
        0 < k <= s.len(),
        match digits_value(s.subrange(0, k)) {
            Some(v) => v > u64::MAX,
            None => true,
        },
    ensures
        match digits_value(s) {
            Some(v) => v > u64::MAX,
            None => true,
        },
    decreases s.len() - k,
{
    if k < s.len() {
        let longer = s.subrange(0, k + 1);
        assert(longer.drop_last() =~= s.subrange(0, k));
        lemma_digits_grow(s, k + 1);
    } else {
        assert(s.subrange(0, k) =~= s);
    }
}

} // verus!
