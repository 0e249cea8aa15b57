//! The modeled segment directory.
//!
//! The store keeps the byte contents of every `<generation>.log` segment in
//! memory, ordered by generation. A caller that persists the store mirrors
//! these segments to files; the contracts of the mutating operations state
//! exactly how the segment set changes.

use vstd::prelude::*;
use vstd::string::{StrSliceExecFns, StringExecFns};
use vstd::utf8::{encode_utf8, is_ascii_chars, is_ascii_chars_encode_utf8, encode_utf8_valid_utf8, encode_utf8_decode_utf8};

verus! {

/// Strictly ascending generation numbers.
pub open spec fn gens_sorted(s: Seq<u64>) -> bool {
    forall|i: int, j: int| 0 <= i < j < s.len() ==> s[i] < s[j]
}

/// One log segment: an append-only byte file named by its generation.
#[derive(Debug)]
pub struct Segment {
    /// The segment's generation number.
    pub generation_num: u64,
    /// The segment's byte contents.
    pub data: Vec<u8>,
}

/// Generations strictly increase along the segment list.
pub open spec fn segs_sorted(segs: Seq<Segment>) -> bool {
    forall|i: int, j: int|
        0 <= i < j < segs.len() ==> segs[i].generation_num < segs[j].generation_num
}

/// Some segment carries generation `g`.
pub open spec fn has_gen(segs: Seq<Segment>, g: u64) -> bool {
    exists|i: int| 0 <= i < segs.len() && segs[i].generation_num == g
}

/// Total byte size of the first `i` segments.
pub open spec fn total_bytes_upto(segs: Seq<Segment>, i: int) -> int
    decreases i,
{
    if i <= 0 {
        0
    } else {
        total_bytes_upto(segs, i - 1) + segs[i - 1].data@.len()
    }
}

/// Total byte size of the segment directory.
pub open spec fn total_bytes(segs: Seq<Segment>) -> int {
    total_bytes_upto(segs, segs.len() as int)
}

/// The position of the segment with generation `g`, when one is present.
pub open spec fn gen_index(segs: Seq<Segment>, g: u64) -> int {
    choose|i: int| 0 <= i < segs.len() && segs[i].generation_num == g
}

/// The byte contents of the segment with generation `g`.
pub open spec fn gen_data(segs: Seq<Segment>, g: u64) -> Seq<u8> {
    segs[gen_index(segs, g)].data@
}

/// In a sorted directory each generation names at most one segment, so any
/// segment that carries `g` holds exactly `gen_data(segs, g)`.
pub proof fn lemma_gen_unique(segs: Seq<Segment>, g: u64, i: int)
    requires
        segs_sorted(segs),
        0 <= i < segs.len(),
        segs[i].generation_num == g,
    ensures
        gen_index(segs, g) == i,
        gen_data(segs, g) == segs[i].data@,
{
    assert(has_gen(segs, g));
    let j = gen_index(segs, g);
    assert(0 <= j < segs.len() && segs[j].generation_num == g);
    if i < j {
        assert(segs[i].generation_num < segs[j].generation_num);
    } else if j < i {
        assert(segs[j].generation_num < segs[i].generation_num);
    }
}

/// Finds the position of the segment with generation `g`.
pub(crate) fn find_segment(segs: &Vec<Segment>, g: u64) -> (r: Option<usize>)
    ensures
        match r {
            Some(i) => i < segs@.len() && segs@[i as int].generation_num == g,
            None => !has_gen(segs@, g),
        },
{
    let n = segs.len();
    let mut i: usize = 0;
    while i < n
        invariant
            n == segs@.len(),
            i <= n,
            forall|j: int| 0 <= j < i ==> segs@[j].generation_num != g,
        decreases n - i,
    {
        if segs[i].generation_num == g {
            return Some(i);
        }
        i += 1;
    }
    None
}

/// Total byte size of the segments, or `None` when it exceeds `u64::MAX`.
pub(crate) fn total_bytes_checked(segs: &Vec<Segment>) -> (r: Option<u64>)
    ensures
        match r {
            Some(t) => t == total_bytes(segs@),
            None => total_bytes(segs@) > u64::MAX,
        },
{
    let n = segs.len();
    let mut i: usize = 0;
    let mut sum: u64 = 0;
    while i < n
        invariant
            n == segs@.len(),
            i <= n,
            sum == total_bytes_upto(segs@, i as int),
        decreases n - i,
    {
        let len = segs[i].data.len();
        match sum.checked_add(len as u64) {
            Some(s) => {
                sum = s;
            },
            None => {
                proof {
                    lemma_total_bytes_monotonic(segs@, i + 1, segs@.len() as int);
                }
                return None;
            },
        }
        i += 1;
    }
    Some(sum)
}

/// Directory size only depends on the segments counted.
pub proof fn lemma_total_bytes_upto_agree(s1: Seq<Segment>, s2: Seq<Segment>, i: int)
    requires
        0 <= i <= s1.len(),
        i <= s2.len(),
        forall|j: int| 0 <= j < i ==> s1[j] == s2[j],
    ensures
        total_bytes_upto(s1, i) == total_bytes_upto(s2, i),
    decreases i,
{
    if i > 0 {
        lemma_total_bytes_upto_agree(s1, s2, i - 1);
    }
}

/// Extending a sorted directory with further segments does not disturb
/// where an existing generation is found or what it holds.
pub proof fn lemma_prefix_gen_data(s1: Seq<Segment>, s2: Seq<Segment>, g: u64)
    requires
        segs_sorted(s2),
        s1.len() <= s2.len(),
        forall|j: int| 0 <= j < s1.len() ==> s2[j] == s1[j],
        has_gen(s1, g),
    ensures
        has_gen(s2, g),
        gen_data(s2, g) == gen_data(s1, g),
{
    let i = choose|i: int| 0 <= i < s1.len() && s1[i].generation_num == g;
    assert(s2[i] == s1[i]);
    assert(segs_sorted(s1));
    lemma_gen_unique(s1, g, i);
    lemma_gen_unique(s2, g, i);
}

/// A directory whose adjacent generations ascend is sorted.
pub proof fn lemma_sorted_from_adjacent(segs: Seq<Segment>, i: int, j: int)
    requires
        forall|m: int|
            1 <= m < segs.len() ==> segs[m - 1].generation_num < #[trigger] segs[m].generation_num,
        0 <= i < j < segs.len(),
    ensures
        segs[i].generation_num < segs[j].generation_num,
    decreases j - i,
{
    if i + 1 < j {
        lemma_sorted_from_adjacent(segs, i, j - 1);
    }
}

/// The running directory size never shrinks as more segments are counted.
pub proof fn lemma_total_bytes_monotonic(segs: Seq<Segment>, i: int, j: int)
    requires
        0 <= i <= j,
    ensures
        total_bytes_upto(segs, i) <= total_bytes_upto(segs, j),
    decreases j - i,
{
    if i < j {
        lemma_total_bytes_monotonic(segs, i, j - 1);
    }
}

/// The character for the decimal digit `d`.
pub open spec fn digit_char(d: int) -> char {
    if d == 0 {
        '0'
    } else if d == 1 {
        '1'
    } else if d == 2 {
        '2'
    } else if d == 3 {
        '3'
    } else if d == 4 {
        '4'
    } else if d == 5 {
        '5'
    } else if d == 6 {
        '6'
    } else if d == 7 {
        '7'
    } else if d == 8 {
        '8'
    } else {
        '9'
    }
}

/// The decimal numeral of `n`, most significant digit first.
pub open spec fn spec_decimal(n: u64) -> Seq<char>
    decreases n,
{
    if n < 10 {
        seq![digit_char(n as int)]
    } else {
        spec_decimal(n / 10) + seq![digit_char((n % 10) as int)]
    }
}

/// The file name `<g>.log` under which segment `g` is stored.
pub open spec fn spec_log_name(g: u64) -> Seq<char> {
    spec_decimal(g) + seq!['.', 'l', 'o', 'g']
}

/// Whether `c` is a decimal digit.
pub open spec fn is_digit(c: char) -> bool {
    '0' <= c <= '9'
}

/// A non-empty string of decimal digits.
pub open spec fn all_digits(s: Seq<char>) -> bool {
    s.len() > 0 && forall|i: int| 0 <= i < s.len() ==> is_digit(#[trigger] s[i])
}

/// Numeric value of a digit string, most significant digit first.
pub open spec fn digits_val(s: Seq<char>) -> int
    decreases s.len(),
{
    if s.len() == 0 {
        0
    } else {
        digits_val(s.drop_last()) * 10 + (s.last() as u32 - 48)
    }
}

/// What a directory entry named `name` contributes: the generation it
/// stores, when the name is a digit string followed by `.log` whose value
/// fits a generation number, and nothing otherwise — a stray file is
/// skipped, never an error.
pub open spec fn spec_parse_log_name(name: Seq<char>) -> Option<u64> {
    if name.len() >= 5 && name.subrange(name.len() - 4, name.len() as int) == seq![
        '.',
        'l',
        'o',
        'g',
    ] && all_digits(name.subrange(0, name.len() - 4)) && digits_val(
        name.subrange(0, name.len() - 4),
    ) <= u64::MAX {
        Some(digits_val(name.subrange(0, name.len() - 4)) as u64)
    } else {
        None
    }
}

/// The value of a digit string is never negative.
proof fn lemma_digits_val_nonneg(s: Seq<char>)
    requires
        forall|i: int| 0 <= i < s.len() ==> is_digit(#[trigger] s[i]),
    ensures
        digits_val(s) >= 0,
    decreases s.len(),
{
    if s.len() > 0 {
        assert(forall|i: int|
            0 <= i < s.drop_last().len() ==> is_digit(#[trigger] s.drop_last()[i]));
        lemma_digits_val_nonneg(s.drop_last());
        assert(s.last() as u32 >= 48);
    }
}

/// A digit string is worth at least any of its prefixes.
proof fn lemma_digits_val_prefix(s: Seq<char>, i: int)
    requires
        forall|j: int| 0 <= j < s.len() ==> is_digit(#[trigger] s[j]),
        0 <= i <= s.len(),
    ensures
        digits_val(s.subrange(0, i)) <= digits_val(s),
    decreases s.len() - i,
{
    if i == s.len() {
        assert(s.subrange(0, i) =~= s);
    } else {
        lemma_digits_val_prefix(s, i + 1);
        let p = s.subrange(0, i + 1);
        assert(p.drop_last() =~= s.subrange(0, i));
        assert(forall|j: int| 0 <= j < p.len() ==> is_digit(#[trigger] p[j]));
        lemma_digits_val_nonneg(p.drop_last());
        assert(p.last() as u32 >= 48);
    }
}

/// The reversed digit bytes, as the digit characters they spell.
pub open spec fn rev_digit_chars(s: Seq<u8>) -> Seq<char> {
    Seq::new(s.len(), |i: int| digit_char(s[s.len() - 1 - i] - 48))
}

/// Builds the file name `<g>.log` of segment `g`.
#[verifier::loop_isolation(false)]
pub fn log_file_name(generation_num: u64) -> (name: String)
    ensures
        name@ == spec_log_name(generation_num),
{
    let mut rev: Vec<u8> = Vec::new();
    let mut m = generation_num;
    rev.push(48 + (m % 10) as u8);
    proof {
        assert(rev_digit_chars(rev@) =~= seq![digit_char((generation_num % 10) as int)]);
    }
    m = m / 10;
    while m > 0
        invariant
            forall|j: int| 0 <= j < rev@.len() ==> 48 <= #[trigger] rev@[j] <= 57,
            rev@.len() >= 1,
            m == 0 ==> spec_decimal(generation_num) == rev_digit_chars(rev@),
            m > 0 ==> spec_decimal(generation_num) == spec_decimal(m) + rev_digit_chars(rev@),
        decreases m,
    {
        let ghost rev0 = rev@;
        rev.push(48 + (m % 10) as u8);
        proof {
            assert(rev_digit_chars(rev@) =~= seq![digit_char((m % 10) as int)]
                + rev_digit_chars(rev0));
            if m < 10 {
                assert(spec_decimal(m) == seq![digit_char(m as int)]);
                assert(seq![digit_char(m as int)] + rev_digit_chars(rev0) == rev_digit_chars(
                    rev@,
                ));
            } else {
                assert(spec_decimal(m) == spec_decimal(m / 10) + seq![
                    digit_char((m % 10) as int),
                ]);
                assert(spec_decimal(m) + rev_digit_chars(rev0) =~= spec_decimal(m / 10)
                    + rev_digit_chars(rev@));
            }
        }
        m = m / 10;
    }
    let n = rev.len();
    let mut bytes: Vec<u8> = Vec::new();
    let mut i: usize = 0;
    while i < n
        invariant
            bytes@.len() == i,
            0 <= i <= n,
            forall|j: int| 0 <= j < i ==> bytes@[j] == rev@[n - 1 - j],
        decreases n - i,
    {
        bytes.push(rev[n - 1 - i]);
        i += 1;
    }
    bytes.push(46);
    bytes.push(108);
    bytes.push(111);
    bytes.push(103);
    let ghost cs = spec_log_name(generation_num);
    proof {
        assert(cs.len() == n + 4);
        assert forall|j: int| 0 <= j < bytes@.len() implies bytes@[j] == cs[j] as u8 by {
            if j < n {
                assert(cs[j] == digit_char(rev@[n - 1 - j] - 48));
                assert(48 <= rev@[n - 1 - j] <= 57);
            }
        }
        assert(is_ascii_chars(cs)) by {
            assert forall|j: int| 0 <= j < cs.len() implies '\0' <= #[trigger] cs[j]
                <= '\u{7f}' by {
                if j < n {
                    assert(cs[j] == digit_char(rev@[n - 1 - j] - 48));
                    assert(48 <= rev@[n - 1 - j] <= 57);
                }
            }
        }
        is_ascii_chars_encode_utf8(cs);
        assert(bytes@ =~= encode_utf8(cs));
        encode_utf8_valid_utf8(cs);
    }
    match String::from_utf8(bytes) {
        Ok(s) => {
            proof {
                encode_utf8_decode_utf8(s@);
                encode_utf8_decode_utf8(cs);
            }
            s
        },
        Err(_) => {
            proof {
                assert(false);
            }
            String::new()
        },
    }
}

/// Builds `dir/<g>.log`, the path of the segment with generation `g`.
pub fn log_path(dir: &str, generation_num: u64) -> (p: String)
    ensures
        p@ == dir@ + seq!['/'] + spec_log_name(generation_num),
{
    let name = log_file_name(generation_num);
    let mut p = dir.to_owned();
    p.append("/");
    p.append(name.as_str());
    proof {
        reveal_strlit("/");
        assert(p@ =~= dir@ + seq!['/'] + spec_log_name(generation_num));
    }
    p
}

/// Parses a directory entry's name as `<u64>.log`. Returns the generation
/// for exactly the names `spec_parse_log_name` accepts; a stray file or
/// an overflowing numeral yields `None`.
#[verifier::loop_isolation(false)]
pub fn parse_log_name(name: &str) -> (r: Option<u64>)
    ensures
        r == spec_parse_log_name(name@),
{
    let n = name.unicode_len();
    if n < 5 {
        return None;
    }
    let ghost suffix = name@.subrange(n as int - 4, n as int);
    if name.get_char(n - 4) != '.' {
        proof {
            assert(suffix[0] == name@[n as int - 4]);
        }
        return None;
    }
    if name.get_char(n - 3) != 'l' {
        proof {
            assert(suffix[1] == name@[n as int - 3]);
        }
        return None;
    }
    if name.get_char(n - 2) != 'o' {
        proof {
            assert(suffix[2] == name@[n as int - 2]);
        }
        return None;
    }
    if name.get_char(n - 1) != 'g' {
        proof {
            assert(suffix[3] == name@[n as int - 1]);
        }
        return None;
    }
    proof {
        assert(suffix =~= seq!['.', 'l', 'o', 'g']);
    }
    let ghost part = name@.subrange(0, n as int - 4);
    let mut val: u64 = 0;
    let mut i: usize = 0;
    while i < n - 4
        invariant
            0 <= i <= n - 4,
            forall|j: int| 0 <= j < i ==> is_digit(#[trigger] name@[j]),
            val == digits_val(name@.subrange(0, i as int)),
        decreases n - 4 - i,
    {
        let c = name.get_char(i);
        let d = c as u32;
        if d < 48 || d > 57 {
            proof {
                assert(part[i as int] == name@[i as int]);
                assert(!is_digit(part[i as int]));
            }
            return None;
        }
        let ghost pre = name@.subrange(0, i as int);
        let ghost pre1 = name@.subrange(0, i as int + 1);
        proof {
            assert(pre1.drop_last() =~= pre);
            assert(pre1.last() == name@[i as int]);
            assert(forall|j: int| 0 <= j < pre1.len() ==> is_digit(#[trigger] pre1[j]));
            lemma_digits_val_nonneg(pre);
        }
        let val10 = match val.checked_mul(10) {
            Some(v) => v,
            None => {
                proof {
                    if all_digits(part) {
                        lemma_digits_val_prefix(part, i as int + 1);
                        assert(part.subrange(0, i as int + 1) =~= pre1);
                    }
                }
                return None;
            },
        };
        let val2 = match val10.checked_add((d - 48) as u64) {
            Some(v) => v,
            None => {
                proof {
                    if all_digits(part) {
                        lemma_digits_val_prefix(part, i as int + 1);
                        assert(part.subrange(0, i as int + 1) =~= pre1);
                    }
                }
                return None;
            },
        };
        val = val2;
        i += 1;
    }
    proof {
        assert(name@.subrange(0, n as int - 4) =~= part);
        assert(all_digits(part));
    }
    Some(val)
}

/// Inserts a generation into an ascending list, keeping it ascending and
/// without duplicates.
#[verifier::spinoff_prover]
#[verifier::rlimit(100)]
fn insert_generation(v: &mut Vec<u64>, g: u64)
    requires
        gens_sorted(old(v)@),
    ensures
        gens_sorted(final(v)@),
        forall|h: u64| final(v)@.contains(h) <==> (old(v)@.contains(h) || h == g),
{
    let ghost orig = v@;
    let n = v.len();
    let mut i: usize = 0;
    while i < n && v[i] < g
        invariant
            n == v@.len(),
            v@ == orig,
            0 <= i <= n,
            forall|j: int| 0 <= j < i ==> v@[j] < g,
        decreases n - i,
    {
        i += 1;
    }
    if i == n || v[i] != g {
        proof {
            assert(forall|j: int| i <= j < v@.len() ==> g <= #[trigger] v@[j]) by {
                if i < v@.len() {
                    assert(forall|j: int|
                        i < j < v@.len() ==> v@[i as int] < #[trigger] v@[j]);
                }
            }
        }
        v.insert(i, g);
        proof {
            assert forall|h: u64| v@.contains(h) implies (orig.contains(h) || h == g) by {
                let j = choose|j: int| 0 <= j < v@.len() && v@[j] == h;
                if j < i {
                    assert(orig[j] == h);
                } else if j > i {
                    assert(orig[j - 1] == h);
                }
            }
            assert forall|h: u64| orig.contains(h) || h == g implies v@.contains(h) by {
                if h == g {
                    assert(v@[i as int] == h);
                } else {
                    let j = choose|j: int| 0 <= j < orig.len() && orig[j] == h;
                    if j < i {
                        assert(v@[j] == h);
                    } else {
                        assert(v@[j + 1] == h);
                    }
                }
            }
            assert forall|h: u64| v@.contains(h) <==> (orig.contains(h) || h == g) by {
                assert(v@.contains(h) ==> (orig.contains(h) || h == g));
                assert((orig.contains(h) || h == g) ==> v@.contains(h));
            }
        }
    } else {
        proof {
            assert(v@.contains(g)) by {
                assert(v@[i as int] == g);
            }
            assert forall|h: u64| v@.contains(h) <==> (orig.contains(h) || h == g) by {
                if h == g {
                    assert(v@.contains(g));
                }
            }
        }
    }
}

/// Lists the generations present among the given directory entries:
/// exactly the names of the form `<u64>.log`, parsed and sorted ascending.
/// Entries that fail to parse are silently skipped, so a stray file never
/// aborts startup.
#[verifier::loop_isolation(false)]
pub fn sorted_generation_number_list(names: &Vec<String>) -> (r: Vec<u64>)
    ensures
        gens_sorted(r@),
        forall|g: u64|
            r@.contains(g) <==> exists|i: int|
                0 <= i < names@.len() && #[trigger] spec_parse_log_name(names@[i]@) == Some(g),
{
    let mut r: Vec<u64> = Vec::new();
    let mut i: usize = 0;
    while i < names.len()
        invariant
            0 <= i <= names@.len(),
            gens_sorted(r@),
            forall|g: u64|
                r@.contains(g) <==> exists|j: int|
                    0 <= j < i && #[trigger] spec_parse_log_name(names@[j]@) == Some(g),
        decreases names@.len() - i,
    {
        let ghost r0 = r@;
        match parse_log_name(names[i].as_str()) {
            Some(g) => {
                insert_generation(&mut r, g);
                proof {
                    assert forall|h: u64| r@.contains(h) implies exists|j: int|
                        0 <= j < i + 1 && #[trigger] spec_parse_log_name(names@[j]@) == Some(
                        h,
                    ) by {
                        if r0.contains(h) {
                            let j = choose|j: int|
                                0 <= j < i && #[trigger] spec_parse_log_name(names@[j]@)
                                    == Some(h);
                            assert(spec_parse_log_name(names@[j]@) == Some(h));
                        } else {
                            assert(spec_parse_log_name(names@[i as int]@) == Some(h));
                        }
                    }
                }
            },
            None => {},
        }
        i += 1;
    }
    r
}

} // verus!
