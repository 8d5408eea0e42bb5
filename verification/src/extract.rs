//! String extraction: recovering printable text fragments from raw bytes
//! under two encodings. The ASCII sub-scanner keeps maximal runs of
//! printable bytes; the UTF-16LE sub-scanner keeps maximal runs of
//! little-endian 16-bit code units whose character is ASCII-graphic or the
//! space. A closed run is emitted when it reaches the configured minimum
//! length, measured in encoding units.

use vstd::prelude::*;

use crate::chars::{is_acceptable_unit, is_printable_byte, acceptable_unit, is_printable_ascii};
use crate::strutil::push_char;

verus! {

/// The views of a sequence of strings.
pub open spec fn views_of(v: Seq<String>) -> Seq<Seq<char>> {
    v.map_values(|s: String| s@)
}

/// The characters of a byte run, one character per byte.
pub open spec fn byte_chars(run: Seq<u8>) -> Seq<char> {
    run.map_values(|b: u8| b as char)
}

/// What closing the ASCII run `[start, end)` contributes: the decoded run
/// if it is at least `min_len` bytes long, nothing otherwise.
pub open spec fn ascii_close(data: Seq<u8>, start: int, end: int, min_len: int) -> Seq<Seq<char>> {
    if end - start >= min_len {
        seq![byte_chars(data.subrange(start, end))]
    } else {
        Seq::empty()
    }
}

/// The strings the ASCII sub-scanner emits from position `i` on, with a
/// current run that began at `start`.
pub open spec fn ascii_scan(data: Seq<u8>, i: int, start: int, min_len: int) -> Seq<Seq<char>>
    recommends
        0 <= start <= i <= data.len(),
    decreases data.len() - i
        when i <= data.len()
{
    if i >= data.len() {
        ascii_close(data, start, data.len() as int, min_len)
    } else if is_printable_byte(data[i]) {
        ascii_scan(data, i + 1, start, min_len)
    } else {
        ascii_close(data, start, i, min_len) + ascii_scan(data, i + 1, i + 1, min_len)
    }
}

/// All strings the ASCII sub-scanner extracts from `data`.
pub open spec fn ascii_strings_spec(data: Seq<u8>, min_len: int) -> Seq<Seq<char>> {
    ascii_scan(data, 0, 0, min_len)
}

/// Decodes a run of printable ASCII bytes into a string. Decoding cannot
/// fail: every byte is below 0x7f, so each is one character.
fn ascii_run_string(run: &Vec<u8>) -> (s: String)
    ensures
        s@ == byte_chars(run@),
{
    let mut s = String::new();
    let mut i: usize = 0;
    while i < run.len()
        invariant
            i <= run@.len(),
            s@ == byte_chars(run@.subrange(0, i as int)),
        decreases run@.len() - i,
    {
        push_char(&mut s, run[i] as char);
        proof {
            assert(s@ =~= byte_chars(run@.subrange(0, i + 1 as int)));
        }
        i += 1;
    }
    proof {
        assert(run@.subrange(0, run@.len() as int) =~= run@);
    }
    s
}

/// Extracts the printable ASCII strings of `data`: the maximal runs of
/// printable bytes (tab, or space through tilde) of length at least
/// `min_len`, in buffer order.
pub fn extract_ascii_strings(data: &[u8], min_len: usize) -> (out: Vec<String>)
    ensures
        views_of(out@) == ascii_strings_spec(data@, min_len as int),
{
    let ghost m: int = min_len as int;
    let mut out: Vec<String> = Vec::new();
    let mut cur: Vec<u8> = Vec::new();
    let ghost mut start: int = 0;
    let mut i: usize = 0;
    while i < data.len()
        invariant
            0 <= start <= i as int <= data@.len(),
            m == min_len as int,
            cur@ == data@.subrange(start, i as int),
            views_of(out@) + ascii_scan(data@, i as int, start, m) == ascii_scan(data@, 0, 0, m),
        decreases data@.len() - i,
    {
        let b = data[i];
        if is_printable_ascii(b) {
            cur.push(b);
            proof {
                assert(cur@ =~= data@.subrange(start, i + 1 as int));
            }
        } else {
            if cur.len() >= min_len {
                let s = ascii_run_string(&cur);
                proof {
                    assert(views_of(out@.push(s)) =~= views_of(out@).push(s@));
                    assert(views_of(out@).push(s@) + ascii_scan(data@, i + 1, i + 1, m) =~= views_of(
                        out@,
                    ) + (ascii_close(data@, start, i as int, m) + ascii_scan(
                        data@,
                        i + 1,
                        i + 1,
                        m,
                    )));
                }
                out.push(s);
            } else {
                proof {
                    assert(views_of(out@) + ascii_scan(data@, i + 1, i + 1, m) =~= views_of(out@)
                        + (ascii_close(data@, start, i as int, m) + ascii_scan(
                        data@,
                        i + 1,
                        i + 1,
                        m,
                    )));
                }
            }
            cur.clear();
            proof {
                start = i + 1;
                assert(cur@ =~= data@.subrange(start, i + 1 as int));
            }
        }
        i += 1;
    }
    if cur.len() >= min_len {
        let s = ascii_run_string(&cur);
        proof {
            assert(views_of(out@.push(s)) =~= views_of(out@).push(s@));
            assert(views_of(out@).push(s@) =~= views_of(out@) + ascii_close(
                data@,
                start,
                data@.len() as int,
                m,
            ));
        }
        out.push(s);
    } else {
        proof {
            assert(views_of(out@) =~= views_of(out@) + ascii_close(
                data@,
                start,
                data@.len() as int,
                m,
            ));
        }
    }
    out
}

/// The number of whole little-endian 16-bit code units in the buffer; a
/// trailing odd byte is ignored.
pub open spec fn n_words(data: Seq<u8>) -> int {
    data.len() as int / 2
}

/// The code unit at word index `k`: two consecutive bytes, low byte first.
pub open spec fn word_at(data: Seq<u8>, k: int) -> u16 {
    ((data[2 * k] as int) + 256 * (data[2 * k + 1] as int)) as u16
}

/// The characters of the code-unit run `[start, end)`, one character per
/// unit.
pub open spec fn word_chars(data: Seq<u8>, start: int, end: int) -> Seq<char> {
    Seq::new((end - start) as nat, |j: int| word_at(data, start + j) as char)
}

/// What closing the code-unit run `[start, end)` contributes: the decoded
/// run if it is at least `min_len` units long, nothing otherwise.
pub open spec fn utf16_close(data: Seq<u8>, start: int, end: int, min_len: int) -> Seq<Seq<char>> {
    if end - start >= min_len {
        seq![word_chars(data, start, end)]
    } else {
        Seq::empty()
    }
}

/// The strings the UTF-16LE sub-scanner emits from word index `k` on, with
/// a current run that began at word index `start`.
pub open spec fn utf16_scan(data: Seq<u8>, k: int, start: int, min_len: int) -> Seq<Seq<char>>
    recommends
        0 <= start <= k <= n_words(data),
    decreases n_words(data) - k
        when k <= n_words(data)
{
    if k >= n_words(data) {
        utf16_close(data, start, n_words(data), min_len)
    } else if is_acceptable_unit(word_at(data, k)) {
        utf16_scan(data, k + 1, start, min_len)
    } else {
        utf16_close(data, start, k, min_len) + utf16_scan(data, k + 1, k + 1, min_len)
    }
}

/// All strings the UTF-16LE sub-scanner extracts from `data`. A buffer of
/// fewer than two bytes yields nothing.
pub open spec fn utf16_strings_spec(data: Seq<u8>, min_len: int) -> Seq<Seq<char>> {
    if data.len() < 2 {
        Seq::empty()
    } else {
        utf16_scan(data, 0, 0, min_len)
    }
}

/// Decodes a run of acceptable code units into a string. Every unit is in
/// the ASCII range, so no unpaired surrogate can occur and decoding cannot
/// fail.
fn utf16_run_string(run: &Vec<u16>) -> (s: String)
    requires
        forall|j: int| 0 <= j < run@.len() ==> is_acceptable_unit(run@[j]),
    ensures
        s@ == run@.map_values(|w: u16| w as char),
{
    let mut s = String::new();
    let mut i: usize = 0;
    while i < run.len()
        invariant
            i <= run@.len(),
            forall|j: int| 0 <= j < run@.len() ==> is_acceptable_unit(run@[j]),
            s@ == run@.subrange(0, i as int).map_values(|w: u16| w as char),
        decreases run@.len() - i,
    {
        push_char(&mut s, (run[i] as u8) as char);
        proof {
            assert(s@ =~= run@.subrange(0, i + 1 as int).map_values(|w: u16| w as char));
        }
        i += 1;
    }
    proof {
        assert(run@.subrange(0, run@.len() as int) =~= run@);
    }
    s
}

/// Extracts the UTF-16LE strings of `data`: the maximal runs of
/// little-endian code units in the ASCII-graphic-or-space range, of length
/// at least `min_len` units, in buffer order.
pub fn extract_utf16le_strings(data: &[u8], min_len: usize) -> (out: Vec<String>)
    ensures
        views_of(out@) == utf16_strings_spec(data@, min_len as int),
{
    if data.len() < 2 {
        let out: Vec<String> = Vec::new();
        proof {
            assert(views_of(out@) =~= utf16_strings_spec(data@, min_len as int));
        }
        return out;
    }
    let ghost m: int = min_len as int;
    let dlen = data.len();
    let nw = dlen / 2;
    let mut out: Vec<String> = Vec::new();
    let mut cur: Vec<u16> = Vec::new();
    let ghost mut start: int = 0;
    let mut k: usize = 0;
    while k < nw
        invariant
            dlen == data@.len(),
            nw == n_words(data@),
            2 <= data@.len(),
            0 <= start <= k as int <= nw,
            m == min_len as int,
            cur@.len() == k as int - start,
            forall|j: int| 0 <= j < cur@.len() ==> cur@[j] == word_at(data@, start + j),
            forall|j: int| 0 <= j < cur@.len() ==> is_acceptable_unit(cur@[j]),
            views_of(out@) + utf16_scan(data@, k as int, start, m) == utf16_scan(data@, 0, 0, m),
        decreases nw - k,
    {
        proof {
            assert(2 * (k as int) + 1 < dlen as int);
        }
        let b0 = data[2 * k];
        let b1 = data[2 * k + 1];
        let w: u16 = (b0 as u16) + (b1 as u16) * 256;
        proof {
            assert(w == word_at(data@, k as int));
        }
        if acceptable_unit(w) {
            cur.push(w);
        } else {
            if cur.len() >= min_len {
                let s = utf16_run_string(&cur);
                proof {
                    assert(s@ =~= word_chars(data@, start, k as int));
                    assert(views_of(out@.push(s)) =~= views_of(out@).push(s@));
                    assert(views_of(out@).push(s@) + utf16_scan(data@, k + 1, k + 1, m) =~= views_of(
                        out@,
                    ) + (utf16_close(data@, start, k as int, m) + utf16_scan(
                        data@,
                        k + 1,
                        k + 1,
                        m,
                    )));
                }
                out.push(s);
            } else {
                proof {
                    assert(views_of(out@) + utf16_scan(data@, k + 1, k + 1, m) =~= views_of(out@)
                        + (utf16_close(data@, start, k as int, m) + utf16_scan(
                        data@,
                        k + 1,
                        k + 1,
                        m,
                    )));
                }
            }
            cur.clear();
            proof {
                start = k + 1;
            }
        }
        k += 1;
    }
    if cur.len() >= min_len {
        let s = utf16_run_string(&cur);
        proof {
            assert(s@ =~= word_chars(data@, start, nw as int));
            assert(views_of(out@.push(s)) =~= views_of(out@).push(s@));
            assert(views_of(out@).push(s@) =~= views_of(out@) + utf16_close(
                data@,
                start,
                n_words(data@),
                m,
            ));
        }
        out.push(s);
    } else {
        proof {
            assert(views_of(out@) =~= views_of(out@) + utf16_close(data@, start, n_words(data@), m));
        }
    }
    out
}

/// A maximal printable ASCII run `[a, b)` that the scanner emits: long
/// enough, printable throughout, and extendable on neither side.
pub open spec fn ascii_run_at(data: Seq<u8>, a: int, b: int, min_len: int) -> bool {
    &&& 0 <= a <= b <= data.len()
    &&& b - a >= min_len
    &&& forall|k: int| a <= k < b ==> is_printable_byte(data[k])
    &&& (a == 0 || !is_printable_byte(data[a - 1]))
    &&& (b == data.len() || !is_printable_byte(data[b]))
}

/// Whether `s` is the decoding of some maximal printable run of `data` of
/// length at least `min_len`.
pub open spec fn is_maximal_ascii_string(data: Seq<u8>, min_len: int, s: Seq<char>) -> bool {
    exists|a: int, b: int|
        #[trigger] ascii_run_at(data, a, b, min_len) && s == byte_chars(data.subrange(a, b))
}

proof fn lemma_ascii_scan_runs(data: Seq<u8>, i: int, start: int, min_len: int)
    requires
        0 <= start <= i <= data.len(),
        forall|k: int| start <= k < i ==> is_printable_byte(data[k]),
        start == 0 || !is_printable_byte(data[start - 1]),
    ensures
        forall|n: int|
            0 <= n < ascii_scan(data, i, start, min_len).len() ==> is_maximal_ascii_string(
                data,
                min_len,
                #[trigger] ascii_scan(data, i, start, min_len)[n],
            ),
    decreases data.len() - i,
{
    let res = ascii_scan(data, i, start, min_len);
    if i >= data.len() {
        if data.len() - start >= min_len {
            assert(ascii_run_at(data, start, data.len() as int, min_len));
            assert forall|n: int| 0 <= n < res.len() implies is_maximal_ascii_string(
                data,
                min_len,
                #[trigger] res[n],
            ) by {
                assert(res[n] == byte_chars(data.subrange(start, data.len() as int)));
            }
        }
    } else if is_printable_byte(data[i]) {
        lemma_ascii_scan_runs(data, i + 1, start, min_len);
        assert forall|n: int| 0 <= n < res.len() implies is_maximal_ascii_string(
            data,
            min_len,
            #[trigger] res[n],
        ) by {
            assert(res[n] == ascii_scan(data, i + 1, start, min_len)[n]);
        }
    } else {
        lemma_ascii_scan_runs(data, i + 1, i + 1, min_len);
        let head = ascii_close(data, start, i, min_len);
        let rest = ascii_scan(data, i + 1, i + 1, min_len);
        assert forall|n: int| 0 <= n < res.len() implies is_maximal_ascii_string(
            data,
            min_len,
            #[trigger] res[n],
        ) by {
            assert(res.len() == head.len() + rest.len());
            if n < head.len() {
                assert(ascii_run_at(data, start, i, min_len));
                assert(res[n] == byte_chars(data.subrange(start, i)));
            } else {
                assert(res[n] == rest[n - head.len()]);
            }
        }
    }
}

/// Every ASCII-extracted string is the decoding of a maximal printable run:
/// at least `min_len` bytes long, printable throughout, and not extendable
/// by one more printable byte on either side within the buffer.
pub proof fn lemma_ascii_strings_maximal(data: Seq<u8>, min_len: int)
    ensures
        forall|n: int|
            0 <= n < ascii_strings_spec(data, min_len).len() ==> is_maximal_ascii_string(
                data,
                min_len,
                #[trigger] ascii_strings_spec(data, min_len)[n],
            ),
{
    lemma_ascii_scan_runs(data, 0, 0, min_len);
}

/// Every ASCII-extracted string has at least `min_len` characters, each of
/// them the tab or a byte from the printable block, space through tilde.
pub proof fn lemma_ascii_strings_printable(data: Seq<u8>, min_len: int)
    ensures
        forall|n: int|
            0 <= n < ascii_strings_spec(data, min_len).len() ==> (#[trigger] ascii_strings_spec(
                data,
                min_len,
            )[n]).len() >= min_len,
        forall|n: int, j: int|
            0 <= n < ascii_strings_spec(data, min_len).len() && 0 <= j < ascii_strings_spec(
                data,
                min_len,
            )[n].len() ==> is_printable_byte(
                #[trigger] ascii_strings_spec(data, min_len)[n][j] as u8,
            ),
{
    lemma_ascii_strings_maximal(data, min_len);
    let res = ascii_strings_spec(data, min_len);
    assert forall|n: int| 0 <= n < res.len() implies res[n].len() >= min_len by {
        let (a, b) = choose|a: int, b: int|
            #[trigger] ascii_run_at(data, a, b, min_len) && res[n] == byte_chars(
                data.subrange(a, b),
            );
    }
    assert forall|n: int, j: int|
        0 <= n < res.len() && 0 <= j < res[n].len() implies is_printable_byte(
        #[trigger] res[n][j] as u8,
    ) by {
        let (a, b) = choose|a: int, b: int|
            #[trigger] ascii_run_at(data, a, b, min_len) && res[n] == byte_chars(
                data.subrange(a, b),
            );
        assert(res[n][j] == data.subrange(a, b)[j] as char);
        assert(is_printable_byte(data.subrange(a, b)[j]));
    }
}

/// A maximal acceptable UTF-16LE run `[a, b)` in word indices: long enough,
/// acceptable throughout, and extendable on neither side.
pub open spec fn utf16_run_at(data: Seq<u8>, a: int, b: int, min_len: int) -> bool {
    &&& 0 <= a <= b <= n_words(data)
    &&& b - a >= min_len
    &&& forall|k: int| a <= k < b ==> is_acceptable_unit(word_at(data, k))
    &&& (a == 0 || !is_acceptable_unit(word_at(data, a - 1)))
    &&& (b == n_words(data) || !is_acceptable_unit(word_at(data, b)))
}

/// Whether `s` is the decoding of some maximal acceptable code-unit run of
/// `data` of length at least `min_len` units.
pub open spec fn is_maximal_utf16_string(data: Seq<u8>, min_len: int, s: Seq<char>) -> bool {
    exists|a: int, b: int|
        #[trigger] utf16_run_at(data, a, b, min_len) && s == word_chars(data, a, b)
}

proof fn lemma_utf16_scan_runs(data: Seq<u8>, i: int, start: int, min_len: int)
    requires
        0 <= start <= i <= n_words(data),
        forall|k: int| start <= k < i ==> is_acceptable_unit(word_at(data, k)),
        start == 0 || !is_acceptable_unit(word_at(data, start - 1)),
    ensures
        forall|n: int|
            0 <= n < utf16_scan(data, i, start, min_len).len() ==> is_maximal_utf16_string(
                data,
                min_len,
                #[trigger] utf16_scan(data, i, start, min_len)[n],
            ),
    decreases n_words(data) - i,
{
    let res = utf16_scan(data, i, start, min_len);
    if i >= n_words(data) {
        if n_words(data) - start >= min_len {
            assert(utf16_run_at(data, start, n_words(data), min_len));
            assert forall|n: int| 0 <= n < res.len() implies is_maximal_utf16_string(
                data,
                min_len,
                #[trigger] res[n],
            ) by {
                assert(res[n] == word_chars(data, start, n_words(data)));
            }
        }
    } else if is_acceptable_unit(word_at(data, i)) {
        lemma_utf16_scan_runs(data, i + 1, start, min_len);
        assert forall|n: int| 0 <= n < res.len() implies is_maximal_utf16_string(
            data,
            min_len,
            #[trigger] res[n],
        ) by {
            assert(res[n] == utf16_scan(data, i + 1, start, min_len)[n]);
        }
    } else {
        lemma_utf16_scan_runs(data, i + 1, i + 1, min_len);
        let head = utf16_close(data, start, i, min_len);
        let rest = utf16_scan(data, i + 1, i + 1, min_len);
        assert forall|n: int| 0 <= n < res.len() implies is_maximal_utf16_string(
            data,
            min_len,
            #[trigger] res[n],
        ) by {
            assert(res.len() == head.len() + rest.len());
            if n < head.len() {
                assert(utf16_run_at(data, start, i, min_len));
                assert(res[n] == word_chars(data, start, i));
            } else {
                assert(res[n] == rest[n - head.len()]);
            }
        }
    }
}

/// Every UTF-16LE-extracted string decodes from a maximal run of acceptable
/// code units of length at least `min_len` units, and has at least
/// `min_len` characters.
pub proof fn lemma_utf16_strings_lossless(data: Seq<u8>, min_len: int)
    ensures
        forall|n: int|
            0 <= n < utf16_strings_spec(data, min_len).len() ==> is_maximal_utf16_string(
                data,
                min_len,
                #[trigger] utf16_strings_spec(data, min_len)[n],
            ),
        forall|n: int|
            0 <= n < utf16_strings_spec(data, min_len).len() ==> (#[trigger] utf16_strings_spec(
                data,
                min_len,
            )[n]).len() >= min_len,
{
    if data.len() >= 2 {
        lemma_utf16_scan_runs(data, 0, 0, min_len);
    }
    let res = utf16_strings_spec(data, min_len);
    assert forall|n: int| 0 <= n < res.len() implies res[n].len() >= min_len by {
        let (a, b) = choose|a: int, b: int|
            #[trigger] utf16_run_at(data, a, b, min_len) && res[n] == word_chars(data, a, b);
    }
}

/// Re-encoding a character of an extracted UTF-16LE run gives back exactly
/// the code unit read from the buffer: the decoding is lossless.
pub proof fn lemma_word_chars_lossless(data: Seq<u8>, a: int, b: int, j: int)
    requires
        0 <= a <= b <= n_words(data),
        0 <= j < b - a,
        is_acceptable_unit(word_at(data, a + j)),
    ensures
        word_chars(data, a, b)[j] as u16 == word_at(data, a + j),
{
    let w = word_at(data, a + j);
    vstd::utf8::char_u32_cast(w as char, w as u32);
}

} // verus!
