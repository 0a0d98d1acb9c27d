//! Resource descriptors of the form `type:model:count[(ids)][,type:model:count...]`.
use vstd::prelude::*;

verus! {

/// The pieces of `s` between occurrences of `sep`, in order. There is always
/// at least one piece; an empty text gives one empty piece.
pub open spec fn split(s: Seq<char>, sep: char) -> Seq<Seq<char>>
    decreases s.len(),
{
    if s.len() == 0 {
        seq![Seq::empty()]
    } else {
        let prev = split(s.drop_last(), sep);
        if s.last() == sep {
            prev.push(Seq::empty())
        } else {
            prev.update(prev.len() - 1, prev.last().push(s.last()))
        }
    }
}

/// The characters of `s` as a vector.
pub fn chars_of(s: &str) -> (r: Vec<char>)
    ensures
        r@ == s@,
{
    let n = s.unicode_len();
    let mut r: Vec<char> = Vec::new();
    let mut i: usize = 0;
    while i < n
        invariant
            n == s@.len(),
            i <= n,
            r@ == s@.subrange(0, i as int),
        decreases n - i,
    {
        r.push(s.get_char(i));
        i = i + 1;
        assert(r@ =~= s@.subrange(0, i as int));
    }
    assert(r@ =~= s@);
    r
}

/// Splits `s` at every `sep`, as `split` describes.
pub fn split_chars(s: &Vec<char>, sep: char) -> (r: Vec<Vec<char>>)
    ensures
        r@.map_values(|v: Vec<char>| v@) == split(s@, sep),
{
    let mut out: Vec<Vec<char>> = Vec::new();
    let mut cur: Vec<char> = Vec::new();
    let mut i: usize = 0;
    while i < s.len()
        invariant
            i <= s@.len(),
            out@.map_values(|v: Vec<char>| v@).push(cur@) == split(s@.subrange(0, i as int), sep),
        decreases s.len() - i,
    {
        let c = s[i];
        let ghost before = s@.subrange(0, i as int);
        let ghost prev = out@.map_values(|v: Vec<char>| v@).push(cur@);
        assert(s@.subrange(0, i + 1).drop_last() =~= before);
        if c == sep {
            out.push(cur);
            cur = Vec::new();
            assert(out@.map_values(|v: Vec<char>| v@).push(cur@) =~= prev.push(Seq::empty()));
        } else {
            cur.push(c);
            assert(out@.map_values(|v: Vec<char>| v@).push(cur@) =~= prev.update(
                prev.len() - 1,
                prev.last().push(c),
            ));
        }
        i = i + 1;
    }
    assert(s@.subrange(0, s@.len() as int) =~= s@);
    out.push(cur);
    assert(out@.map_values(|v: Vec<char>| v@) =~= split(s@, sep));
    out
}

} // verus!

verus! {

pub open spec fn is_digit(c: char) -> bool {
    '0' <= c && c <= '9'
}

pub open spec fn digit_value(c: char) -> nat {
    (c as u32 - '0' as u32) as nat
}

/// The decimal value of a sequence of digits.
pub open spec fn digits_value(d: Seq<char>) -> nat
    decreases d.len(),
{
    if d.len() == 0 {
        0
    } else {
        digits_value(d.drop_last()) * 10 + digit_value(d.last())
    }
}

pub open spec fn all_digits(d: Seq<char>) -> bool {
    forall|i: int| 0 <= i < d.len() ==> is_digit(#[trigger] d[i])
}

/// Reading of an unsigned 32-bit integer: an optional leading `+`, then at
/// least one decimal digit and nothing else, with a value that fits.
pub open spec fn parse_u32(t: Seq<char>) -> Option<u32> {
    let d = if t.len() > 0 && t[0] == '+' {
        t.drop_first()
    } else {
        t
    };
    if d.len() > 0 && all_digits(d) && digits_value(d) <= u32::MAX {
        Some(digits_value(d) as u32)
    } else {
        None
    }
}

/// The part of a count field before its first `(`; the whole field if it has none.
pub open spec fn count_text(f: Seq<char>) -> Seq<char>
    decreases f.len(),
{
    if f.len() == 0 {
        f
    } else if f[0] == '(' {
        Seq::empty()
    } else {
        seq![f[0]] + count_text(f.drop_first())
    }
}

/// The count of one descriptor entry, or `None` where the entry is skipped:
/// fewer than three `:`-separated fields, or a count that does not parse.
pub open spec fn entry_count(e: Seq<char>) -> Option<u32> {
    let fields = split(e, ':');
    if fields.len() >= 3 {
        parse_u32(count_text(fields[2]))
    } else {
        None
    }
}

/// The sum of the counts of the entries that are not skipped.
pub open spec fn entries_total(entries: Seq<Seq<char>>) -> nat
    decreases entries.len(),
{
    if entries.len() == 0 {
        0
    } else {
        entries_total(entries.drop_last()) + match entry_count(entries.last()) {
            Some(v) => v as nat,
            None => 0,
        }
    }
}

/// The total count that a descriptor text stands for.
pub open spec fn descriptor_total(s: Seq<char>) -> nat {
    entries_total(split(s, ','))
}

/// The text of an optional descriptor; a missing one reads as empty.
pub open spec fn descriptor_text(d: Option<String>) -> Seq<char> {
    match d {
        Some(s) => s@,
        None => Seq::empty(),
    }
}

/// `n`, or `u64::MAX` where `n` is larger.
pub open spec fn saturate(n: nat) -> u64 {
    if n <= u64::MAX {
        n as u64
    } else {
        u64::MAX
    }
}

proof fn lemma_digits_value_prefix(d: Seq<char>, i: int)
    requires
        0 <= i <= d.len(),
    ensures
        digits_value(d.subrange(0, i)) <= digits_value(d),
    decreases d.len(),
{
    if i < d.len() {
        lemma_digits_value_prefix(d.drop_last(), i);
        assert(d.drop_last().subrange(0, i) =~= d.subrange(0, i));
    } else {
        assert(d.subrange(0, i) =~= d);
    }
}

proof fn lemma_count_text_prefix(f: Seq<char>, k: int)
    requires
        0 <= k <= f.len(),
        forall|j: int| 0 <= j < k ==> f[j] != '(',
        k == f.len() || f[k] == '(',
    ensures
        count_text(f) == f.subrange(0, k),
    decreases k,
{
    if k == 0 {
        assert(f.subrange(0, 0) =~= Seq::<char>::empty());
    } else {
        lemma_count_text_prefix(f.drop_first(), k - 1);
        assert(f.subrange(0, k) =~= seq![f[0]] + f.drop_first().subrange(0, k - 1));
    }
}

/// Reads the digits `d` as a number, or `None` where one is not a digit or
/// the value does not fit in 32 bits.
fn parse_digits(d: &Vec<char>) -> (r: Option<u32>)
    ensures
        r == (if d@.len() > 0 && all_digits(d@) && digits_value(d@) <= u32::MAX {
            Some(digits_value(d@) as u32)
        } else {
            None
        }),
{
    if d.len() == 0 {
        return None;
    }
    let mut v: u64 = 0;
    let mut i: usize = 0;
    while i < d.len()
        invariant
            i <= d@.len(),
            all_digits(d@.subrange(0, i as int)),
            v == digits_value(d@.subrange(0, i as int)),
            v <= u32::MAX,
        decreases d.len() - i,
    {
        let c = d[i];
        if !('0' <= c && c <= '9') {
            assert(!all_digits(d@));
            return None;
        }
        assert(d@.subrange(0, i + 1).drop_last() =~= d@.subrange(0, i as int));
        let next: u64 = v * 10 + (c as u32 - '0' as u32) as u64;
        if next > u32::MAX as u64 {
            proof {
                if all_digits(d@) {
                    lemma_digits_value_prefix(d@, i + 1);
                }
            }
            return None;
        }
        v = next;
        i = i + 1;
        assert(all_digits(d@.subrange(0, i as int)));
    }
    assert(d@.subrange(0, d@.len() as int) =~= d@);
    Some(v as u32)
}

/// Reads `t` as an unsigned 32-bit integer, as `parse_u32` describes.
pub fn parse_count(t: &Vec<char>) -> (r: Option<u32>)
    ensures
        r == parse_u32(t@),
{
    if t.len() > 0 && t[0] == '+' {
        let mut d: Vec<char> = Vec::new();
        let mut i: usize = 1;
        while i < t.len()
            invariant
                1 <= i <= t@.len(),
                d@ == t@.subrange(1, i as int),
            decreases t.len() - i,
        {
            d.push(t[i]);
            i = i + 1;
            assert(d@ =~= t@.subrange(1, i as int));
        }
        assert(d@ =~= t@.drop_first());
        parse_digits(&d)
    } else {
        parse_digits(t)
    }
}

/// The count of one entry, as `entry_count` describes.
pub fn parse_entry(e: &Vec<char>) -> (r: Option<u32>)
    ensures
        r == entry_count(e@),
{
    let fields = split_chars(e, ':');
    assert(fields@.len() == split(e@, ':').len());
    if fields.len() < 3 {
        return None;
    }
    let f = &fields[2];
    assert(f@ == split(e@, ':')[2]);
    let mut k: usize = 0;
    while k < f.len() && f[k] != '('
        invariant
            k <= f@.len(),
            forall|j: int| 0 <= j < k ==> f@[j] != '(',
        decreases f.len() - k,
    {
        k = k + 1;
    }
    proof {
        lemma_count_text_prefix(f@, k as int);
    }
    let mut text: Vec<char> = Vec::new();
    let mut i: usize = 0;
    while i < k
        invariant
            k <= f@.len(),
            i <= k,
            text@ == f@.subrange(0, i as int),
        decreases k - i,
    {
        text.push(f[i]);
        i = i + 1;
        assert(text@ =~= f@.subrange(0, i as int));
    }
    parse_count(&text)
}

/// The total count of a resource descriptor: the sum of the counts of its
/// comma-separated entries, skipping the malformed ones. A missing or empty
/// descriptor counts 0. A sum past `u64::MAX` stays at `u64::MAX`.
pub fn descriptor_count(desc: &Option<String>) -> (r: u64)
    ensures
        r == saturate(descriptor_total(descriptor_text(*desc))),
{
    let s: Vec<char> = match desc {
        Some(d) => chars_of(d.as_str()),
        None => Vec::new(),
    };
    assert(s@ == descriptor_text(*desc));
    let entries = split_chars(&s, ',');
    let ghost es = split(s@, ',');
    let mut total: u64 = 0;
    let mut i: usize = 0;
    while i < entries.len()
        invariant
            entries@.map_values(|v: Vec<char>| v@) == es,
            i <= entries@.len(),
            total == saturate(entries_total(es.subrange(0, i as int))),
        decreases entries.len() - i,
    {
        let c = parse_entry(&entries[i]);
        assert(entries@[i as int]@ == es[i as int]);
        assert(es.subrange(0, i + 1).drop_last() =~= es.subrange(0, i as int));
        match c {
            Some(v) => {
                if total > u64::MAX - v as u64 {
                    total = u64::MAX;
                } else {
                    total = total + v as u64;
                }
            },
            None => {},
        }
        i = i + 1;
    }
    assert(es.subrange(0, es.len() as int) =~= es);
    total
}

} // verus!
