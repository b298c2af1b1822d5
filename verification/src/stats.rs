//! The statistics snapshot's cache-metrics map at its serialization
//! boundary. External encodings support only string keys, so the composite
//! partition key crosses them as `"{stream_id}-{topic_id}-{partition_id}"`;
//! the dash cannot occur inside the numeric fields, so the encoding never
//! collides. Decoding tolerates malformed keys — wrong segment count, a
//! non-numeric or out-of-range component — by skipping the entry, never by
//! failing the whole snapshot.

use vstd::prelude::*;
use vstd::string::StrSliceExecFns;
use vstd::string::StringExecFns;

verus! {

/// Key identifying one partition's cache counters in a statistics snapshot.
#[derive(Debug, Clone, Copy, Hash, Eq, PartialEq, Structural)]
pub struct BenchmarkCacheMetricsKey {
    /// Stream ID
    pub stream_id: u32,
    /// Topic ID
    pub topic_id: u32,
    /// Partition ID
    pub partition_id: u32,
}

/// One partition's cache counters as a snapshot carries them. The hit ratio
/// is derived from these on demand, never stored beside them.
#[derive(Debug, Clone, Copy, Eq, PartialEq, Structural)]
pub struct BenchmarkCacheMetrics {
    /// Number of cache hits
    pub hits: u64,
    /// Number of cache misses
    pub misses: u64,
}

impl Default for BenchmarkCacheMetrics {
    /// Counters at zero.
    fn default() -> (m: BenchmarkCacheMetrics)
        ensures
            m == (BenchmarkCacheMetrics { hits: 0, misses: 0 }),
    {
        BenchmarkCacheMetrics { hits: 0, misses: 0 }
    }
}

/// The decimal digit characters.
pub open spec fn digit_char(d: int) -> char {
    if d == 0 {
        '0'
    } else if d == 1 {
        '1'
    } else if d == 2 {
        '2'
    } else if d == 3 {
        '3'
    } else if d == 4 {
        '4'
    } else if d == 5 {
        '5'
    } else if d == 6 {
        '6'
    } else if d == 7 {
        '7'
    } else if d == 8 {
        '8'
    } else {
        '9'
    }
}

/// The decimal rendering of a number, most significant digit first.
pub open spec fn dec_chars(n: int) -> Seq<char>
    decreases n,
{
    if n < 10 {
        seq![digit_char(n)]
    } else {
        dec_chars(n / 10).push(digit_char(n % 10))
    }
}

/// Whether this character is a decimal digit.
pub open spec fn is_digit(c: char) -> bool {
    48 <= c as int <= 57
}

/// The value of a digit character.
pub open spec fn digit_val(c: char) -> int {
    c as int - 48
}

/// The number a run of digit characters denotes.
pub open spec fn dec_val(s: Seq<char>) -> int
    decreases s.len(),
{
    if s.len() == 0 {
        0
    } else {
        dec_val(s.drop_last()) * 10 + digit_val(s.last())
    }
}

/// Whether every character of the run is a decimal digit.
pub open spec fn all_digits(s: Seq<char>) -> bool {
    forall|i: int| 0 <= i < s.len() ==> is_digit(#[trigger] s[i])
}

/// A well-formed key component: nonempty, digits only, and a value a `u32`
/// can hold. Anything else makes the whole key malformed.
pub open spec fn valid_component(s: Seq<char>) -> bool {
    s.len() >= 1 && all_digits(s) && dec_val(s) <= u32::MAX
}

/// Index of the first dash of the run, or its length if it has none.
pub open spec fn first_dash(s: Seq<char>) -> int
    decreases s.len(),
{
    if s.len() == 0 {
        0
    } else if s[0] == '-' {
        0
    } else {
        1 + first_dash(s.drop_first())
    }
}

/// What decoding a string key yields: the key, when the string is exactly
/// three dash-separated well-formed components; nothing otherwise.
pub open spec fn parse_key(s: Seq<char>) -> Option<BenchmarkCacheMetricsKey> {
    let a_end = first_dash(s);
    if a_end == s.len() {
        None
    } else {
        let a = s.subrange(0, a_end);
        let rest = s.skip(a_end + 1);
        let b_end = first_dash(rest);
        if b_end == rest.len() {
            None
        } else {
            let b = rest.subrange(0, b_end);
            let c = rest.skip(b_end + 1);
            if first_dash(c) != c.len() {
                None
            } else if valid_component(a) && valid_component(b) && valid_component(c) {
                Some(BenchmarkCacheMetricsKey {
                    stream_id: dec_val(a) as u32,
                    topic_id: dec_val(b) as u32,
                    partition_id: dec_val(c) as u32,
                })
            } else {
                None
            }
        }
    }
}

/// One decimal digit as a string slice.
fn digit_str(d: u32) -> (s: &'static str)
    requires
        d < 10,
    ensures
        s@ =~= seq![digit_char(d as int)],
{
    proof {
        reveal_strlit("0");
        reveal_strlit("1");
        reveal_strlit("2");
        reveal_strlit("3");
        reveal_strlit("4");
        reveal_strlit("5");
        reveal_strlit("6");
        reveal_strlit("7");
        reveal_strlit("8");
        reveal_strlit("9");
    }
    if d == 0 {
        "0"
    } else if d == 1 {
        "1"
    } else if d == 2 {
        "2"
    } else if d == 3 {
        "3"
    } else if d == 4 {
        "4"
    } else if d == 5 {
        "5"
    } else if d == 6 {
        "6"
    } else if d == 7 {
        "7"
    } else if d == 8 {
        "8"
    } else {
        "9"
    }
}

/// Append the decimal rendering of `n`.
fn push_dec(out: &mut String, n: u32)
    ensures
        final(out)@ == old(out)@ + dec_chars(n as int),
    decreases n,
{
    let ghost at_entry = out@;
    if n >= 10 {
        push_dec(out, n / 10);
    }
    let d = digit_str(n % 10);
    out.append(d);
    proof {
        if n >= 10 {
            assert(dec_chars(n as int)
                == dec_chars(n as int / 10).push(digit_char(n as int % 10)));
            assert(at_entry + dec_chars((n / 10) as int)
                + seq![digit_char((n % 10) as int)]
                =~= at_entry + dec_chars(n as int));
        } else {
            assert(dec_chars(n as int) == seq![digit_char(n as int)]);
            assert(at_entry + seq![digit_char(n as int)]
                =~= at_entry + dec_chars(n as int));
        }
    }
}

impl BenchmarkCacheMetricsKey {
    /// The characters of this key's string form.
    pub open spec fn string_key(self) -> Seq<char> {
        dec_chars(self.stream_id as int) + seq!['-'] + dec_chars(self.topic_id as int)
            + seq!['-'] + dec_chars(self.partition_id as int)
    }

    /// This key as the dash-delimited string the external encoding carries.
    pub fn to_string_key(&self) -> (s: String)
        ensures
            s@ == self.string_key(),
    {
        proof {
            reveal_strlit("-");
        }
        let mut out = String::new();
        push_dec(&mut out, self.stream_id);
        out.append("-");
        push_dec(&mut out, self.topic_id);
        out.append("-");
        push_dec(&mut out, self.partition_id);
        proof {
            assert("-"@ =~= seq!['-']);
            assert(out@ =~= self.string_key());
        }
        out
    }
}

/// Index of the first dash at or after `from`, or `n` if there is none.
fn find_dash(s: &str, from: usize, n: usize) -> (r: usize)
    requires
        from <= n,
        n == s@.len(),
    ensures
        from <= r <= n,
        r < n ==> s@[r as int] == '-',
        forall|k: int| from <= k < r ==> s@[k] != '-',
{
    let mut i = from;
    while i < n
        invariant
            from <= i <= n,
            n == s@.len(),
            forall|k: int| from <= k < i ==> s@[k] != '-',
        decreases n - i,
    {
        let c = s.get_char(i);
        if c == '-' {
            return i;
        }
        i += 1;
    }
    n
}

/// Where the dashes of a run are known, so is its first dash.
proof fn lemma_first_dash(s: Seq<char>, i: int)
    requires
        0 <= i <= s.len(),
        forall|k: int| 0 <= k < i ==> s[k] != '-',
        i < s.len() ==> s[i] == '-',
    ensures
        i < s.len() ==> first_dash(s) == i,
        i == s.len() ==> first_dash(s) == s.len(),
    decreases s.len(),
{
    if s.len() == 0 {
    } else if s[0] == '-' {
        assert(i == 0);
    } else {
        let rest = s.drop_first();
        assert(forall|k: int| 0 <= k < i - 1 ==> rest[k] != '-');
        lemma_first_dash(rest, i - 1);
    }
}

/// Parse one dash-free slice of the key as a `u32` component.
fn parse_component(s: &str, from: usize, to: usize) -> (r: Option<u32>)
    requires
        from <= to <= s@.len(),
    ensures
        ({
            let comp = s@.subrange(from as int, to as int);
            &&& (valid_component(comp) ==> r == Some(dec_val(comp) as u32))
            &&& (!valid_component(comp) ==> r is None)
        }),
{
    if from == to {
        return None;
    }
    let mut i = from;
    let mut v: u64 = 0;
    let mut over = false;
    while i < to
        invariant
            from <= i <= to <= s@.len(),
            all_digits(s@.subrange(from as int, i as int)),
            !over ==> v == dec_val(s@.subrange(from as int, i as int))
                && v <= u32::MAX as u64,
            over ==> dec_val(s@.subrange(from as int, i as int)) > u32::MAX,
        decreases to - i,
    {
        let c = s.get_char(i);
        let cu = c as u32;
        let ghost prev = s@.subrange(from as int, i as int);
        let ghost next = s@.subrange(from as int, i as int + 1);
        proof {
            assert(next.drop_last() =~= prev);
            assert(next.last() == s@[i as int]);
        }
        if cu < 48 || cu > 57 {
            proof {
                let comp = s@.subrange(from as int, to as int);
                assert(comp[i - from] == s@[i as int]);
                assert(!is_digit(comp[i - from]));
            }
            return None;
        }
        let d = (cu - 48) as u64;
        if !over {
            v = v * 10 + d;
            if v > u32::MAX as u64 {
                over = true;
            }
        } else {
            proof {
                assert(dec_val(next) == dec_val(prev) * 10 + digit_val(s@[i as int]));
                assert(dec_val(prev) * 10 >= dec_val(prev));
                assert(digit_val(s@[i as int]) >= 0);
            }
        }
        proof {
            assert forall|k: int| 0 <= k < next.len() implies is_digit(#[trigger] next[k]) by {
                if k < next.len() - 1 {
                    assert(next[k] == prev[k]);
                } else {
                    assert(next[k] == s@[i as int]);
                }
            }
        }
        i += 1;
    }
    proof {
        assert(s@.subrange(from as int, to as int)
            =~= s@.subrange(from as int, i as int));
    }
    if over {
        None
    } else {
        Some(v as u32)
    }
}

/// Decode one string key: exactly what [`parse_key`] says, with a malformed
/// key yielding `None` rather than an error.
pub fn parse_string_key(s: &str) -> (r: Option<BenchmarkCacheMetricsKey>)
    ensures
        r == parse_key(s@),
{
    let n = s.unicode_len();
    let d1 = find_dash(s, 0, n);
    if d1 == n {
        proof {
            lemma_first_dash(s@, n as int);
        }
        return None;
    }
    proof {
        lemma_first_dash(s@, d1 as int);
    }
    let ghost rest = s@.skip(d1 as int + 1);
    let d2 = find_dash(s, d1 + 1, n);
    proof {
        assert forall|k: int| 0 <= k < d2 - (d1 + 1) implies rest[k] != '-' by {
            assert(rest[k] == s@[d1 + 1 + k]);
        }
        if d2 < n {
            assert(rest[d2 - (d1 + 1)] == s@[d2 as int]);
        }
        lemma_first_dash(rest, d2 - (d1 + 1));
    }
    if d2 == n {
        return None;
    }
    let ghost tail = rest.skip((d2 - (d1 + 1)) as int + 1);
    proof {
        assert(tail =~= s@.skip(d2 as int + 1));
    }
    let d3 = find_dash(s, d2 + 1, n);
    proof {
        assert forall|k: int| 0 <= k < d3 - (d2 + 1) implies tail[k] != '-' by {
            assert(tail[k] == s@[d2 + 1 + k]);
        }
        if d3 < n {
            assert(tail[d3 - (d2 + 1)] == s@[d3 as int]);
        }
        lemma_first_dash(tail, d3 - (d2 + 1));
    }
    if d3 < n {
        return None;
    }
    proof {
        assert(s@.subrange(0, d1 as int) =~= s@.subrange(0, first_dash(s@)));
        assert(rest.subrange(0, first_dash(rest))
            =~= s@.subrange(d1 as int + 1, d2 as int));
        assert(tail =~= rest.skip(first_dash(rest) + 1));
        assert(tail =~= s@.subrange(d2 as int + 1, n as int));
    }
    let stream_id = match parse_component(s, 0, d1) {
        Some(v) => v,
        None => {
            return None;
        },
    };
    let topic_id = match parse_component(s, d1 + 1, d2) {
        Some(v) => v,
        None => {
            return None;
        },
    };
    let partition_id = match parse_component(s, d2 + 1, n) {
        Some(v) => v,
        None => {
            return None;
        },
    };
    Some(BenchmarkCacheMetricsKey { stream_id, topic_id, partition_id })
}

/// A decimal rendering is nonempty, all digits (so never a dash), and
/// denotes the number it renders.
proof fn lemma_dec_chars(n: int)
    requires
        0 <= n,
    ensures
        dec_chars(n).len() >= 1,
        all_digits(dec_chars(n)),
        forall|i: int| 0 <= i < dec_chars(n).len() ==> (#[trigger] dec_chars(n)[i]) != '-',
        dec_val(dec_chars(n)) == n,
    decreases n,
{
    if n < 10 {
        let s = dec_chars(n);
        assert(s =~= seq![digit_char(n)]);
        assert(s.drop_last() =~= Seq::<char>::empty());
        assert(dec_val(s) == dec_val(s.drop_last()) * 10 + digit_val(s.last()));
        assert(is_digit(digit_char(n)) && digit_val(digit_char(n)) == n && digit_char(n) != '-');
    } else {
        lemma_dec_chars(n / 10);
        let s = dec_chars(n);
        assert(s == dec_chars(n / 10).push(digit_char(n % 10)));
        assert(s.drop_last() =~= dec_chars(n / 10));
        assert(s.last() == digit_char(n % 10));
        assert(dec_val(s) == dec_val(dec_chars(n / 10)) * 10 + digit_val(digit_char(n % 10)));
        assert(is_digit(digit_char(n % 10)) && digit_val(digit_char(n % 10)) == n % 10
            && digit_char(n % 10) != '-');
        assert(n == (n / 10) * 10 + n % 10);
        assert forall|i: int| 0 <= i < s.len() implies is_digit(#[trigger] s[i])
            && s[i] != '-' by {
            if i < s.len() - 1 {
                assert(s[i] == dec_chars(n / 10)[i]);
            }
        }
    }
}

/// Round trip at the serialization boundary: decoding the string a key
/// renders to gives back exactly that key.
pub proof fn lemma_string_key_round_trip(key: BenchmarkCacheMetricsKey)
    ensures
        parse_key(key.string_key()) == Some(key),
{
    let a = dec_chars(key.stream_id as int);
    let b = dec_chars(key.topic_id as int);
    let c = dec_chars(key.partition_id as int);
    lemma_dec_chars(key.stream_id as int);
    lemma_dec_chars(key.topic_id as int);
    lemma_dec_chars(key.partition_id as int);
    let s = key.string_key();
    let al = a.len() as int;
    let bl = b.len() as int;
    let cl = c.len() as int;
    assert forall|k: int| 0 <= k < al implies s[k] != '-' by {
        assert(s[k] == a[k]);
    }
    assert(s[al] == '-');
    lemma_first_dash(s, al);
    assert(s.subrange(0, al) =~= a);
    let rest = s.skip(al + 1);
    assert(rest =~= b + seq!['-'] + c);
    assert forall|k: int| 0 <= k < bl implies rest[k] != '-' by {
        assert(rest[k] == b[k]);
    }
    assert(rest[bl] == '-');
    lemma_first_dash(rest, bl);
    assert(rest.subrange(0, bl) =~= b);
    let tail = rest.skip(bl + 1);
    assert(tail =~= c);
    assert forall|k: int| 0 <= k < cl implies tail[k] != '-' by {
        assert(tail[k] == c[k]);
    }
    lemma_first_dash(tail, cl);
    assert(valid_component(a) && valid_component(b) && valid_component(c));
    assert(dec_val(a) as u32 == key.stream_id);
    assert(dec_val(b) as u32 == key.topic_id);
    assert(dec_val(c) as u32 == key.partition_id);
}

/// What decoding a run of string-keyed entries yields: the well-formed
/// entries, in order, under their parsed keys; malformed keys are skipped.
pub open spec fn decoded_entries(pairs: Seq<(String, BenchmarkCacheMetrics)>)
    -> Seq<(BenchmarkCacheMetricsKey, BenchmarkCacheMetrics)>
    decreases pairs.len(),
{
    if pairs.len() == 0 {
        Seq::empty()
    } else {
        decoded_entries(pairs.drop_last()) + (match parse_key(pairs.last().0@) {
            Some(key) => seq![(key, pairs.last().1)],
            None => Seq::empty(),
        })
    }
}

/// Decode a string-keyed cache-metrics map: keep exactly the entries whose
/// key is well formed, under the parsed key, in input order. A malformed
/// key — wrong segment count, a non-numeric or out-of-range component —
/// skips that entry; it never fails the snapshot.
pub fn decode_cache_metrics(pairs: &Vec<(String, BenchmarkCacheMetrics)>)
    -> (out: Vec<(BenchmarkCacheMetricsKey, BenchmarkCacheMetrics)>)
    ensures
        out@ == decoded_entries(pairs@),
{
    let mut out: Vec<(BenchmarkCacheMetricsKey, BenchmarkCacheMetrics)> = Vec::new();
    let mut i: usize = 0;
    while i < pairs.len()
        invariant
            i <= pairs@.len(),
            out@ == decoded_entries(pairs@.subrange(0, i as int)),
        decreases pairs@.len() - i,
    {
        let ghost prefix = pairs@.subrange(0, i as int);
        let ghost prefix1 = pairs@.subrange(0, i as int + 1);
        proof {
            assert(prefix1.drop_last() =~= prefix);
            assert(prefix1.last() == pairs@[i as int]);
        }
        match parse_string_key(pairs[i].0.as_str()) {
            Some(key) => {
                out.push((key, pairs[i].1));
                proof {
                    assert(out@ =~= decoded_entries(prefix1));
                }
            },
            None => {
                proof {
                    assert(out@ =~= decoded_entries(prefix1));
                }
            },
        }
        i += 1;
    }
    proof {
        assert(pairs@.subrange(0, pairs@.len() as int) =~= pairs@);
    }
    out
}

/// Encode a cache-metrics map for a string-keyed external encoding: each
/// entry under its key's string form, in order.
pub fn encode_cache_metrics(entries: &Vec<(BenchmarkCacheMetricsKey, BenchmarkCacheMetrics)>)
    -> (out: Vec<(String, BenchmarkCacheMetrics)>)
    ensures
        out@.len() == entries@.len(),
        forall|i: int| 0 <= i < entries@.len()
            ==> (#[trigger] out@[i]).0@ == entries@[i].0.string_key()
                && out@[i].1 == entries@[i].1,
{
    let mut out: Vec<(String, BenchmarkCacheMetrics)> = Vec::new();
    let mut i: usize = 0;
    while i < entries.len()
        invariant
            i <= entries@.len(),
            out@.len() == i,
            forall|k: int| 0 <= k < i
                ==> (#[trigger] out@[k]).0@ == entries@[k].0.string_key()
                    && out@[k].1 == entries@[k].1,
        decreases entries@.len() - i,
    {
        let key_string = entries[i].0.to_string_key();
        out.push((key_string, entries[i].1));
        i += 1;
    }
    out
}

/// Round trip of the whole map: decoding any run of entries whose keys are
/// the string forms of a keyed run — as [`encode_cache_metrics`] emits —
/// yields exactly that keyed run, nothing skipped.
pub proof fn lemma_encoded_entries_decode(
    entries: Seq<(BenchmarkCacheMetricsKey, BenchmarkCacheMetrics)>,
    pairs: Seq<(String, BenchmarkCacheMetrics)>,
)
    requires
        pairs.len() == entries.len(),
        forall|i: int| 0 <= i < entries.len()
            ==> (#[trigger] pairs[i]).0@ == entries[i].0.string_key()
                && pairs[i].1 == entries[i].1,
    ensures
        decoded_entries(pairs) =~= entries,
    decreases pairs.len(),
{
    if pairs.len() > 0 {
        assert forall|i: int| 0 <= i < entries.drop_last().len()
            implies (#[trigger] pairs.drop_last()[i]).0@
                    == entries.drop_last()[i].0.string_key()
                && pairs.drop_last()[i].1 == entries.drop_last()[i].1 by {
            assert(pairs.drop_last()[i] == pairs[i]);
            assert(entries.drop_last()[i] == entries[i]);
        }
        lemma_encoded_entries_decode(entries.drop_last(), pairs.drop_last());
        lemma_string_key_round_trip(entries.last().0);
        assert(pairs.last().0@ == entries.last().0.string_key());
        assert(parse_key(pairs.last().0@) == Some(entries.last().0));
        assert(decoded_entries(pairs) == decoded_entries(pairs.drop_last())
            + seq![(entries.last().0, pairs.last().1)]);
        assert(entries.last() == (entries.last().0, entries.last().1));
    }
}

} // verus!
