//! Input components and the file-name convention that orders them.

use vstd::prelude::*;

verus! {

/// One input binary: its name, where it came from, its bytes and its rank.
#[derive(Clone, Debug)]
pub struct FirmwareBinary {
    pub name: String,
    pub path: String,
    pub data: Vec<u8>,
    /// Length of `data` as a 32-bit count.
    pub size: u32,
    /// Rank from the numeric file-name prefix; the lowest comes first.
    pub prefix: u32,
}

impl FirmwareBinary {
    pub fn new(name: String, path: String, data: Vec<u8>, prefix: u32) -> (r: Self)
        ensures
            r.name@ == name@,
            r.path@ == path@,
            r.data@ == data@,
            r.size == data@.len() as u32,
            r.prefix == prefix,
    {
        let size = data.len() as u32;
        FirmwareBinary { name, path, data, size, prefix }
    }
}

/// Why a firmware file name could not be used.
#[derive(Clone, Copy, Debug, PartialEq, Eq, Structural)]
pub enum FirmwareError {
    /// The file name is not valid text.
    InvalidFileName,
}

/// Whether `c` is an ASCII decimal digit.
pub open spec fn is_digit(c: char) -> bool {
    '0' <= c <= '9'
}

/// The value of the decimal digits `s`.
pub open spec fn digits_value(s: Seq<char>) -> int
    decreases s.len(),
{
    if s.len() == 0 {
        0
    } else {
        digits_value(s.drop_last()) * 10 + (s.last() as u32 - '0' as u32)
    }
}

/// Whether every character of `t` is a decimal digit.
pub open spec fn all_digits(t: Seq<char>) -> bool {
    forall|i: int| 0 <= i < t.len() ==> is_digit(#[trigger] t[i])
}

/// `s` without one leading `+`.
pub open spec fn unsigned_body(s: Seq<char>) -> Seq<char> {
    if s.len() > 0 && s[0] == '+' {
        s.drop_first()
    } else {
        s
    }
}

/// What parsing `s` as an unsigned 32-bit decimal gives: an optional `+`,
/// then at least one digit, with a value that fits.
pub open spec fn decimal_u32(s: Seq<char>) -> Option<u32> {
    let body = unsigned_body(s);
    if body.len() > 0 && all_digits(body) && digits_value(body) <= u32::MAX {
        Some(digits_value(body) as u32)
    } else {
        None
    }
}

/// A prefix of a string of digits is worth no more than the whole.
proof fn lemma_digits_prefix_le(t: Seq<char>, m: int)
    requires
        0 <= m <= t.len(),
        forall|i: int| 0 <= i < t.len() ==> is_digit(#[trigger] t[i]),
    ensures
        digits_value(t.take(m)) <= digits_value(t),
        digits_value(t.take(m)) >= 0,
    decreases t.len() - m,
{
    if m == t.len() {
        assert(t.take(m) =~= t);
        lemma_digits_nonneg(t);
    } else {
        lemma_digits_prefix_le(t, m + 1);
        assert(t.take(m + 1).drop_last() =~= t.take(m));
        lemma_digits_nonneg(t.take(m));
    }
}

/// Digits are worth a non-negative value.
proof fn lemma_digits_nonneg(t: Seq<char>)
    requires
        forall|i: int| 0 <= i < t.len() ==> is_digit(#[trigger] t[i]),
    ensures
        digits_value(t) >= 0,
    decreases t.len(),
{
    if t.len() > 0 {
        assert forall|i: int| 0 <= i < t.drop_last().len() implies is_digit(#[trigger] t.drop_last()[i]) by {
            assert(t.drop_last()[i] == t[i]);
        }
        lemma_digits_nonneg(t.drop_last());
    }
}

/// `s` read as an unsigned 32-bit decimal, as `u32::from_str_radix(s, 10)` reads it.
fn parse_decimal(s: &str) -> (r: Option<u32>)
    ensures
        r == decimal_u32(s@),
{
    let n = s.unicode_len();
    let start: usize = if n > 0 && s.get_char(0) == '+' {
        1
    } else {
        0
    };
    let ghost body = s@.subrange(start as int, n as int);
    assert(body =~= unsigned_body(s@));
    if start == n {
        return None;
    }
    let mut v: u64 = 0;
    let mut j: usize = start;
    while j < n
        invariant
            n == s@.len(),
            start < n,
            start <= j <= n,
            body == s@.subrange(start as int, n as int),
            body == unsigned_body(s@),
            forall|k: int| 0 <= k < j - start ==> is_digit(#[trigger] body[k]),
            v == digits_value(body.take(j - start)),
            v <= u32::MAX,
        decreases n - j,
    {
        let c = s.get_char(j);
        if !('0' <= c && c <= '9') {
            assert(!is_digit(body[j - start]));
            assert(!all_digits(body));
            assert(decimal_u32(s@) is None);
            return None;
        }
        let d = (c as u32 - '0' as u32) as u64;
        let ghost k = j - start;
        assert(body.take(k + 1).drop_last() =~= body.take(k));
        assert(body.take(k + 1).last() == c);
        v = v * 10 + d;
        if v > 0xFFFF_FFFF {
            proof {
                if all_digits(body) {
                    lemma_digits_prefix_le(body, k + 1);
                    assert(digits_value(body) > u32::MAX);
                }
                assert(decimal_u32(s@) is None);
            }
            return None;
        }
        j = j + 1;
    }
    assert(body.take(n - start) =~= body);
    Some(v as u32)
}

/// The index of the first `-` in `s` from `i` on.
pub open spec fn first_dash_from(s: Seq<char>, i: int) -> Option<int>
    decreases s.len() - i,
{
    if i < 0 || i >= s.len() {
        None
    } else if s[i] == '-' {
        Some(i)
    } else {
        first_dash_from(s, i + 1)
    }
}

/// Where the search for a `-` from `i` stops.
proof fn lemma_first_dash_bounds(s: Seq<char>, i: int)
    requires
        0 <= i,
    ensures
        first_dash_from(s, i) matches Some(k) ==> i <= k < s.len() && s[k] == '-',
    decreases s.len() - i,
{
    if i < s.len() && s[i] != '-' {
        lemma_first_dash_bounds(s, i + 1);
    }
}

/// The text before the first `-` (all of `s` when there is none).
pub open spec fn prefix_part(s: Seq<char>) -> Seq<char> {
    match first_dash_from(s, 0) {
        Some(k) => s.take(k),
        None => s,
    }
}

/// The rank that a file name's numeric prefix gives: the text before the
/// first `-`, when it has two characters or more and reads as a decimal.
pub open spec fn prefix_rank(s: Seq<char>) -> Option<u32> {
    let p = prefix_part(s);
    if p.len() >= 2 {
        decimal_u32(p)
    } else {
        None
    }
}

/// `s` with every trailing `.bin` removed.
pub open spec fn strip_bin(s: Seq<char>) -> Seq<char>
    decreases s.len(),
{
    if s.len() >= 4 && s.subrange(s.len() - 4, s.len() as int) == seq!['.', 'b', 'i', 'n'] {
        strip_bin(s.take(s.len() - 4))
    } else {
        s
    }
}

/// The display name of a file: without its `.bin` endings, and after the
/// first `-` when there is one.
pub open spec fn display_name(s: Seq<char>) -> Seq<char> {
    let t = strip_bin(s);
    match first_dash_from(t, 0) {
        Some(k) => t.subrange(k + 1, t.len() as int),
        None => t,
    }
}

/// The index of the first `-` in `s`, if any.
fn find_dash(s: &str) -> (r: Option<usize>)
    ensures
        match first_dash_from(s@, 0) {
            Some(k) => r == Some(k as usize) && 0 <= k < s@.len(),
            None => r is None,
        },
{
    proof {
        lemma_first_dash_bounds(s@, 0);
    }
    let n = s.unicode_len();
    let mut i: usize = 0;
    while i < n
        invariant
            n == s@.len(),
            i <= n,
            first_dash_from(s@, i as int) == first_dash_from(s@, 0),
        decreases n - i,
    {
        if s.get_char(i) == '-' {
            return Some(i);
        }
        i = i + 1;
    }
    None
}

/// Reads the file name convention of the firmware directory.
pub struct FirmwareLoader;

impl FirmwareLoader {
    /// The rank a file name carries, e.g. 1 for `01-bootloader.bin`.
    pub fn extract_prefix(filename: &str) -> (r: Result<Option<u32>, FirmwareError>)
        ensures
            r == Ok::<Option<u32>, FirmwareError>(prefix_rank(filename@)),
    {
        let n = filename.unicode_len();
        let end = match find_dash(filename) {
            Some(k) => k,
            None => n,
        };
        let first = filename.substring_char(0, end);
        assert(first@ =~= prefix_part(filename@));
        if first.unicode_len() >= 2 {
            Ok(parse_decimal(first))
        } else {
            Ok(None)
        }
    }

    /// The display name of a file, e.g. `bootloader` for `01-bootloader.bin`.
    pub fn extract_name(filename: &str) -> (r: Result<String, FirmwareError>)
        ensures
            r matches Ok(name) && name@ == display_name(filename@),
    {
        let mut t: &str = filename;
        loop
            invariant
                strip_bin(t@) == strip_bin(filename@),
            ensures
                strip_bin(t@) == strip_bin(filename@),
                strip_bin(t@) == t@,
            decreases t@.len(),
        {
            let n = t.unicode_len();
            if n >= 4 && t.get_char(n - 4) == '.' && t.get_char(n - 3) == 'b' && t.get_char(n - 2)
                == 'i' && t.get_char(n - 1) == 'n' {
                assert(t@.subrange(n - 4, n as int) =~= seq!['.', 'b', 'i', 'n']);
                assert(t@.take(n - 4) == t@.subrange(0, n - 4));
                t = t.substring_char(0, n - 4);
            } else {
                break;
            }
        }
        let n = t.unicode_len();
        let name = match find_dash(t) {
            Some(k) => t.substring_char(k + 1, n),
            None => t,
        };
        Ok(String::from_str(name))
    }
}

/// Whether no file after position `k` of `s`, up to `n`, carries the rank of `s[k]`.
pub open spec fn last_of_rank_before(s: Seq<FirmwareBinary>, k: int, n: int) -> bool {
    forall|m: int| k < m < n ==> #[trigger] s[m].prefix != s[k].prefix
}

/// Whether `r[i]` is a file of `found` that no later file of `found` shares a rank with.
pub open spec fn is_last_found(r: Seq<FirmwareBinary>, found: Seq<FirmwareBinary>, i: int) -> bool {
    exists|k: int|
        #![trigger found[k]]
        0 <= k < found.len() && r[i] == found[k] && last_of_rank_before(found, k, found.len() as int)
}

/// Whether some file of `r` has the rank of `found[k]`.
pub open spec fn rank_kept(r: Seq<FirmwareBinary>, found: Seq<FirmwareBinary>, k: int) -> bool {
    exists|i: int| #![trigger r[i]] 0 <= i < r.len() && r[i].prefix == found[k].prefix
}

/// Whether the ranks of `r` strictly increase.
pub open spec fn ranks_ascending(r: Seq<FirmwareBinary>) -> bool {
    forall|i: int, j: int| 0 <= i < j < r.len() ==> #[trigger] r[i].prefix < #[trigger] r[j].prefix
}

impl FirmwareLoader {
    /// Orders the files found by rank, lowest first, one per rank: of files
    /// that share a rank, the one found last is kept.
    pub fn order_by_rank(found: Vec<FirmwareBinary>) -> (r: Vec<FirmwareBinary>)
        ensures
            ranks_ascending(r@),
            forall|i: int| 0 <= i < r@.len() ==> #[trigger] is_last_found(r@, found@, i),
            forall|k: int| 0 <= k < found@.len() ==> #[trigger] rank_kept(r@, found@, k),
    {
        let ghost orig = found@;
        let total = found.len();
        let mut rest = found;
        let mut out: Vec<FirmwareBinary> = Vec::new();
        let ghost mut wit: Seq<int> = Seq::empty();
        let mut n: usize = 0;
        while rest.len() > 0
            invariant
                total == orig.len(),
                n + rest@.len() == orig.len(),
                rest@ == orig.subrange(n as int, orig.len() as int),
                wit.len() == out@.len(),
                ranks_ascending(out@),
                forall|i: int|
                    0 <= i < out@.len() ==> 0 <= #[trigger] wit[i] < n && out@[i] == orig[wit[i]]
                        && last_of_rank_before(orig, wit[i], n as int),
                forall|k: int| 0 <= k < n ==> #[trigger] rank_kept(out@, orig, k),
            decreases rest@.len(),
        {
            let f = rest.remove(0);
            assert(f == orig[n as int]);
            let mut j: usize = 0;
            while j < out.len() && out[j].prefix < f.prefix
                invariant
                    j <= out@.len(),
                    forall|i: int| 0 <= i < j ==> #[trigger] out@[i].prefix < f.prefix,
                decreases out@.len() - j,
            {
                j = j + 1;
            }
            let ghost old_out = out@;
            let ghost old_wit = wit;
            if j < out.len() && out[j].prefix == f.prefix {
                out[j] = f;
                proof {
                    wit = wit.update(j as int, n as int);
                    assert forall|i: int| 0 <= i < out@.len() && i != j implies #[trigger] old_out[i].prefix != f.prefix by {
                        if i > j {
                            assert(old_out[j as int].prefix < old_out[i].prefix);
                        }
                    }
                    assert forall|k: int| 0 <= k < n + 1 implies #[trigger] rank_kept(out@, orig, k) by {
                        if k == n {
                            assert(out@[j as int].prefix == orig[k].prefix);
                        } else {
                            assert(rank_kept(old_out, orig, k));
                            let i = choose|i: int| #![trigger old_out[i]] 0 <= i < old_out.len() && old_out[i].prefix == orig[k].prefix;
                            assert(out@[i].prefix == orig[k].prefix);
                        }
                    }
                }
            } else {
                out.insert(j, f);
                proof {
                    wit = wit.insert(j as int, n as int);
                    assert forall|i: int| 0 <= i < old_out.len() implies #[trigger] old_out[i].prefix != f.prefix by {
                        if i >= j {
                            if i > j {
                                assert(old_out[j as int].prefix < old_out[i].prefix);
                            }
                        }
                    }
                    assert forall|a: int, b: int| 0 <= a < b < out@.len() implies #[trigger] out@[a].prefix < #[trigger] out@[b].prefix by {
                        if b < j {
                        } else if b == j {
                        } else if a < j {
                            assert(out@[b] == old_out[b - 1]);
                            if j < old_out.len() {
                                if b - 1 > j {
                                    assert(old_out[j as int].prefix < old_out[b - 1].prefix);
                                }
                            }
                        } else if a == j {
                            assert(out@[b] == old_out[b - 1]);
                            if b - 1 > j {
                                assert(old_out[j as int].prefix < old_out[b - 1].prefix);
                            }
                        } else {
                            assert(out@[a] == old_out[a - 1]);
                            assert(out@[b] == old_out[b - 1]);
                        }
                    }
                    assert forall|k: int| 0 <= k < n + 1 implies #[trigger] rank_kept(out@, orig, k) by {
                        if k == n {
                            assert(out@[j as int].prefix == orig[k].prefix);
                        } else {
                            assert(rank_kept(old_out, orig, k));
                            let i = choose|i: int| #![trigger old_out[i]] 0 <= i < old_out.len() && old_out[i].prefix == orig[k].prefix;
                            if i < j {
                                assert(out@[i].prefix == orig[k].prefix);
                            } else {
                                assert(out@[i + 1] == old_out[i]);
                                assert(out@[i + 1].prefix == orig[k].prefix);
                            }
                        }
                    }
                    assert forall|i: int| 0 <= i < out@.len() implies 0 <= #[trigger] wit[i] < n + 1 && out@[i] == orig[wit[i]]
                        && last_of_rank_before(orig, wit[i], n + 1) by {
                        if i < j {
                            assert(wit[i] == old_wit[i]);
                        } else if i > j {
                            assert(wit[i] == old_wit[i - 1]);
                            assert(out@[i] == old_out[i - 1]);
                        }
                    }
                }
            }
            proof {
                assert(rest@ =~= orig.subrange(n + 1, orig.len() as int));
            }
            n = n + 1;
        }
        proof {
            assert forall|i: int| 0 <= i < out@.len() implies #[trigger] is_last_found(out@, orig, i) by {
                assert(out@[i] == orig[wit[i]]);
            }
        }
        out
    }
}

} // verus!
