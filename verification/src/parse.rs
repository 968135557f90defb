//! Classification of evaluator stderr lines.
//!
//! Each stderr line is classified into one of three kinds of log data:
//! a source path the evaluator consulted, a named artifact it produced,
//! or opaque text. The recognized line shapes are fixed; a line that is
//! not valid UTF-8, or matches no shape, is preserved verbatim as text.

use vstd::prelude::*;

verus! {

/// One classified stderr line.
#[derive(Debug, Clone, PartialEq, Eq)]
pub enum LogDatum {
    /// A source file the evaluator consulted.
    Source(Vec<u8>),
    /// A named artifact: attribute name and artifact store path.
    AttrDrv(Vec<u8>, Vec<u8>),
    /// An unrecognized (or non-UTF-8) line, kept verbatim.
    Text(Vec<u8>),
}

/// Mathematical model of a classified line.
pub enum LogDatumView {
    Source(Seq<u8>),
    AttrDrv(Seq<u8>, Seq<u8>),
    Text(Seq<u8>),
}

impl View for LogDatum {
    type V = LogDatumView;

    open spec fn view(&self) -> LogDatumView {
        match self {
            LogDatum::Source(p) => LogDatumView::Source(p@),
            LogDatum::AttrDrv(n, d) => LogDatumView::AttrDrv(n@, d@),
            LogDatum::Text(t) => LogDatumView::Text(t@),
        }
    }
}

// ---------------------------------------------------------------------------
// The fixed byte patterns of the recognized line shapes.
// ---------------------------------------------------------------------------

/// The bytes of `evaluating file '`.
pub open spec fn eval_file_prefix() -> Seq<u8> {
    seq![101u8, 118u8, 97u8, 108u8, 117u8, 97u8, 116u8, 105u8, 110u8, 103u8, 32u8, 102u8, 105u8, 108u8, 101u8, 32u8, 39u8]
}

/// The bytes of `copied source '`.
pub open spec fn copied_prefix() -> Seq<u8> {
    seq![99u8, 111u8, 112u8, 105u8, 101u8, 100u8, 32u8, 115u8, 111u8, 117u8, 114u8, 99u8, 101u8, 32u8, 39u8]
}

/// The bytes of `trace: lorri read: '`.
pub open spec fn read_prefix() -> Seq<u8> {
    seq![116u8, 114u8, 97u8, 99u8, 101u8, 58u8, 32u8, 108u8, 111u8, 114u8, 114u8, 105u8, 32u8, 114u8, 101u8, 97u8, 100u8, 58u8, 32u8, 39u8]
}

/// The bytes of `trace: lorri attribute: '`.
pub open spec fn attr_prefix() -> Seq<u8> {
    seq![116u8, 114u8, 97u8, 99u8, 101u8, 58u8, 32u8, 108u8, 111u8, 114u8, 114u8, 105u8, 32u8, 97u8, 116u8, 116u8, 114u8, 105u8, 98u8, 117u8, 116u8, 101u8, 58u8, 32u8, 39u8]
}

/// The bytes of `' -> '`.
pub open spec fn arrow_sep() -> Seq<u8> {
    seq![39u8, 32u8, 45u8, 62u8, 32u8, 39u8]
}

/// The bytes of `/nix/store/`.
pub open spec fn store_prefix() -> Seq<u8> {
    seq![47u8, 110u8, 105u8, 120u8, 47u8, 115u8, 116u8, 111u8, 114u8, 101u8, 47u8]
}

fn eval_file_prefix_vec() -> (v: Vec<u8>)
    ensures
        v@ == eval_file_prefix(),
{
    let v: Vec<u8> = vec![101u8, 118u8, 97u8, 108u8, 117u8, 97u8, 116u8, 105u8, 110u8, 103u8, 32u8, 102u8, 105u8, 108u8, 101u8, 32u8, 39u8];
    proof {
        assert(v@ =~= eval_file_prefix());
    }
    v
}

fn copied_prefix_vec() -> (v: Vec<u8>)
    ensures
        v@ == copied_prefix(),
{
    let v: Vec<u8> = vec![99u8, 111u8, 112u8, 105u8, 101u8, 100u8, 32u8, 115u8, 111u8, 117u8, 114u8, 99u8, 101u8, 32u8, 39u8];
    proof {
        assert(v@ =~= copied_prefix());
    }
    v
}

fn read_prefix_vec() -> (v: Vec<u8>)
    ensures
        v@ == read_prefix(),
{
    let v: Vec<u8> = vec![116u8, 114u8, 97u8, 99u8, 101u8, 58u8, 32u8, 108u8, 111u8, 114u8, 114u8, 105u8, 32u8, 114u8, 101u8, 97u8, 100u8, 58u8, 32u8, 39u8];
    proof {
        assert(v@ =~= read_prefix());
    }
    v
}

fn attr_prefix_vec() -> (v: Vec<u8>)
    ensures
        v@ == attr_prefix(),
{
    let v: Vec<u8> = vec![116u8, 114u8, 97u8, 99u8, 101u8, 58u8, 32u8, 108u8, 111u8, 114u8, 114u8, 105u8, 32u8, 97u8, 116u8, 116u8, 114u8, 105u8, 98u8, 117u8, 116u8, 101u8, 58u8, 32u8, 39u8];
    proof {
        assert(v@ =~= attr_prefix());
    }
    v
}

fn arrow_sep_vec() -> (v: Vec<u8>)
    ensures
        v@ == arrow_sep(),
{
    let v: Vec<u8> = vec![39u8, 32u8, 45u8, 62u8, 32u8, 39u8];
    proof {
        assert(v@ =~= arrow_sep());
    }
    v
}

fn store_prefix_vec() -> (v: Vec<u8>)
    ensures
        v@ == store_prefix(),
{
    let v: Vec<u8> = vec![47u8, 110u8, 105u8, 120u8, 47u8, 115u8, 116u8, 111u8, 114u8, 101u8, 47u8];
    proof {
        assert(v@ =~= store_prefix());
    }
    v
}

// ---------------------------------------------------------------------------
// UTF-8 validity (RFC 3629 well-formed byte sequences).
// ---------------------------------------------------------------------------

/// A UTF-8 continuation byte, `0x80..=0xBF`.
pub open spec fn utf8_cont(b: u8) -> bool {
    0x80 <= b && b <= 0xBF
}

/// The byte sequence `s` is well-formed UTF-8 from position `i` on.
///
/// This follows the well-formed byte sequence table of the Unicode
/// standard: overlong encodings, surrogates and values above U+10FFFF
/// are excluded by the ranges of the second byte.
pub open spec fn is_valid_utf8_from(s: Seq<u8>, i: int) -> bool
    decreases s.len() - i,
{
    if i >= s.len() {
        true
    } else {
        let b0 = s[i];
        if b0 < 0x80 {
            is_valid_utf8_from(s, i + 1)
        } else if b0 < 0xC2 {
            false
        } else if b0 <= 0xDF {
            &&& i + 1 < s.len()
            &&& utf8_cont(s[i + 1])
            &&& is_valid_utf8_from(s, i + 2)
        } else if b0 == 0xE0 {
            &&& i + 2 < s.len()
            &&& 0xA0 <= s[i + 1] && s[i + 1] <= 0xBF
            &&& utf8_cont(s[i + 2])
            &&& is_valid_utf8_from(s, i + 3)
        } else if b0 <= 0xEC {
            &&& i + 2 < s.len()
            &&& utf8_cont(s[i + 1])
            &&& utf8_cont(s[i + 2])
            &&& is_valid_utf8_from(s, i + 3)
        } else if b0 == 0xED {
            &&& i + 2 < s.len()
            &&& 0x80 <= s[i + 1] && s[i + 1] <= 0x9F
            &&& utf8_cont(s[i + 2])
            &&& is_valid_utf8_from(s, i + 3)
        } else if b0 <= 0xEF {
            &&& i + 2 < s.len()
            &&& utf8_cont(s[i + 1])
            &&& utf8_cont(s[i + 2])
            &&& is_valid_utf8_from(s, i + 3)
        } else if b0 == 0xF0 {
            &&& i + 3 < s.len()
            &&& 0x90 <= s[i + 1] && s[i + 1] <= 0xBF
            &&& utf8_cont(s[i + 2])
            &&& utf8_cont(s[i + 3])
            &&& is_valid_utf8_from(s, i + 4)
        } else if b0 <= 0xF3 {
            &&& i + 3 < s.len()
            &&& utf8_cont(s[i + 1])
            &&& utf8_cont(s[i + 2])
            &&& utf8_cont(s[i + 3])
            &&& is_valid_utf8_from(s, i + 4)
        } else if b0 == 0xF4 {
            &&& i + 3 < s.len()
            &&& 0x80 <= s[i + 1] && s[i + 1] <= 0x8F
            &&& utf8_cont(s[i + 2])
            &&& utf8_cont(s[i + 3])
            &&& is_valid_utf8_from(s, i + 4)
        } else {
            false
        }
    }
}

/// The byte sequence `s` is well-formed UTF-8.
pub open spec fn is_valid_utf8(s: Seq<u8>) -> bool {
    is_valid_utf8_from(s, 0)
}

fn is_cont_byte(b: u8) -> (r: bool)
    ensures
        r == utf8_cont(b),
{
    0x80 <= b && b <= 0xBF
}

/// Decides UTF-8 well-formedness of a byte string.
pub fn utf8_valid(line: &Vec<u8>) -> (r: bool)
    ensures
        r == is_valid_utf8(line@),
{
    let n = line.len();
    let mut i: usize = 0;
    loop
        invariant
            i <= n,
            n == line@.len(),
            is_valid_utf8(line@) == is_valid_utf8_from(line@, i as int),
        decreases n - i,
    {
        if i >= n {
            return true;
        }
        let b0 = line[i];
        if b0 < 0x80 {
            i = i + 1;
        } else if b0 < 0xC2 {
            return false;
        } else if b0 <= 0xDF {
            if n - i >= 2 && is_cont_byte(line[i + 1]) {
                i = i + 2;
            } else {
                return false;
            }
        } else if b0 == 0xE0 {
            if n - i >= 3 && 0xA0 <= line[i + 1] && line[i + 1] <= 0xBF && is_cont_byte(line[i + 2]) {
                i = i + 3;
            } else {
                return false;
            }
        } else if b0 <= 0xEC {
            if n - i >= 3 && is_cont_byte(line[i + 1]) && is_cont_byte(line[i + 2]) {
                i = i + 3;
            } else {
                return false;
            }
        } else if b0 == 0xED {
            if n - i >= 3 && 0x80 <= line[i + 1] && line[i + 1] <= 0x9F && is_cont_byte(line[i + 2]) {
                i = i + 3;
            } else {
                return false;
            }
        } else if b0 <= 0xEF {
            if n - i >= 3 && is_cont_byte(line[i + 1]) && is_cont_byte(line[i + 2]) {
                i = i + 3;
            } else {
                return false;
            }
        } else if b0 == 0xF0 {
            if n - i >= 4 && 0x90 <= line[i + 1] && line[i + 1] <= 0xBF && is_cont_byte(line[i + 2])
                && is_cont_byte(line[i + 3]) {
                i = i + 4;
            } else {
                return false;
            }
        } else if b0 <= 0xF3 {
            if n - i >= 4 && is_cont_byte(line[i + 1]) && is_cont_byte(line[i + 2])
                && is_cont_byte(line[i + 3]) {
                i = i + 4;
            } else {
                return false;
            }
        } else if b0 == 0xF4 {
            if n - i >= 4 && 0x80 <= line[i + 1] && line[i + 1] <= 0x8F && is_cont_byte(line[i + 2])
                && is_cont_byte(line[i + 3]) {
                i = i + 4;
            } else {
                return false;
            }
        } else {
            return false;
        }
    }
}

// ---------------------------------------------------------------------------
// Byte-string helpers.
// ---------------------------------------------------------------------------

/// `line` begins with `prefix`.
pub open spec fn starts_with(line: Seq<u8>, prefix: Seq<u8>) -> bool {
    line.len() >= prefix.len() && line.subrange(0, prefix.len() as int) == prefix
}

pub(crate) fn bytes_eq_at(line: &Vec<u8>, at: usize, pat: &Vec<u8>) -> (r: bool)
    requires
        at + pat@.len() <= line@.len(),
    ensures
        r == (line@.subrange(at as int, at as int + pat@.len() as int) == pat@),
{
    let n = line.len();
    let m = pat.len();
    let mut j: usize = 0;
    while j < m
        invariant
            j <= m,
            m == pat@.len(),
            n == line@.len(),
            at + m <= n,
            forall|k: int| 0 <= k < j ==> line@[at + k] == pat@[k],
        decreases m - j,
    {
        if line[at + j] != pat[j] {
            proof {
                assert(line@.subrange(at as int, at as int + pat@.len() as int)[j as int]
                    != pat@[j as int]);
            }
            return false;
        }
        j = j + 1;
    }
    proof {
        assert(line@.subrange(at as int, at as int + pat@.len() as int) =~= pat@);
    }
    true
}

fn slice_bytes(line: &Vec<u8>, a: usize, b: usize) -> (r: Vec<u8>)
    requires
        a <= b,
        b <= line@.len(),
    ensures
        r@ == line@.subrange(a as int, b as int),
{
    let mut r: Vec<u8> = Vec::new();
    let mut j: usize = a;
    while j < b
        invariant
            a <= j <= b,
            b <= line@.len(),
            r@ == line@.subrange(a as int, j as int),
        decreases b - j,
    {
        r.push(line[j]);
        proof {
            assert(r@ =~= line@.subrange(a as int, j + 1));
        }
        j = j + 1;
    }
    r
}

/// Compares two byte strings for equality.
pub fn bytes_equal(a: &Vec<u8>, b: &Vec<u8>) -> (r: bool)
    ensures
        r == (a@ == b@),
{
    let n = a.len();
    if n != b.len() {
        return false;
    }
    let r = bytes_eq_at(a, 0, b);
    proof {
        assert(a@.subrange(0, n as int) =~= a@);
    }
    r
}

/// Concatenates two byte strings.
pub fn concat_bytes(a: &Vec<u8>, b: &Vec<u8>) -> (r: Vec<u8>)
    ensures
        r@ == a@ + b@,
{
    let mut r = clone_bytes(a);
    let m = b.len();
    let mut j: usize = 0;
    proof {
        assert(a@ + b@.subrange(0, 0) =~= a@);
    }
    while j < m
        invariant
            j <= m,
            m == b@.len(),
            r@ == a@ + b@.subrange(0, j as int),
        decreases m - j,
    {
        r.push(b[j]);
        proof {
            assert(a@ + b@.subrange(0, j + 1) =~= (a@ + b@.subrange(0, j as int)).push(b@[j as int]));
        }
        j = j + 1;
    }
    proof {
        assert(b@.subrange(0, m as int) =~= b@);
    }
    r
}

/// Copies a byte string.
pub fn clone_bytes(v: &Vec<u8>) -> (r: Vec<u8>)
    ensures
        r@ == v@,
{
    let n = v.len();
    let r = slice_bytes(v, 0, n);
    proof {
        assert(v@.subrange(0, n as int) =~= v@);
    }
    r
}

// ---------------------------------------------------------------------------
// The four recognizers.
// ---------------------------------------------------------------------------

/// The line is `prefix`, then any capture, then a closing quote.
pub open spec fn wrapped_match(line: Seq<u8>, prefix: Seq<u8>) -> bool {
    &&& line.len() >= prefix.len() + 1
    &&& line.subrange(0, prefix.len() as int) == prefix
    &&& line[line.len() - 1] == 39u8
}

/// The capture of a [`wrapped_match`] line: what stands between the
/// prefix and the closing quote.
pub open spec fn wrapped_capture(line: Seq<u8>, prefix: Seq<u8>) -> Seq<u8> {
    line.subrange(prefix.len() as int, line.len() - 1)
}

/// At position `i` the line holds `' -> '`, no earlier than `lo`, leaving
/// room for a closing quote; with `need_store`, the separator is followed
/// immediately by `/nix/store/`.
pub open spec fn sep_ok(line: Seq<u8>, lo: int, need_store: bool, i: int) -> bool {
    &&& lo <= i
    &&& i + 7 <= line.len()
    &&& line.subrange(i, i + 6) == arrow_sep()
    &&& (need_store ==> i + 18 <= line.len() && line.subrange(i + 6, i + 17) == store_prefix())
}

/// The greatest separator position at or below `i`, or `-1`.
///
/// A greedy capture in front of the separator reaches as far right as the
/// rest of the pattern allows, so the rightmost admissible separator is
/// the one the recognizer uses.
pub open spec fn last_sep_from(line: Seq<u8>, lo: int, need_store: bool, i: int) -> int
    decreases i - lo + 1,
{
    if i < lo {
        -1
    } else if sep_ok(line, lo, need_store, i) {
        i
    } else {
        last_sep_from(line, lo, need_store, i - 1)
    }
}

/// The greatest separator position in the whole line, or `-1`.
pub open spec fn last_sep(line: Seq<u8>, lo: int, need_store: bool) -> int {
    last_sep_from(line, lo, need_store, line.len() - 7)
}

/// The line matches `copied source '<source>' -> '<target>'`.
pub open spec fn copied_match(line: Seq<u8>) -> bool {
    &&& starts_with(line, copied_prefix())
    &&& line.len() >= copied_prefix().len() + 1
    &&& line[line.len() - 1] == 39u8
    &&& last_sep(line, copied_prefix().len() as int, false) >= 0
}

/// The source capture of a [`copied_match`] line: the greedy capture runs
/// to the last admissible separator.
pub open spec fn copied_capture(line: Seq<u8>) -> Seq<u8> {
    line.subrange(copied_prefix().len() as int, last_sep(line, copied_prefix().len() as int, false))
}

/// The line matches `trace: lorri attribute: '<name>' -> '<drv>'` where
/// `<drv>` begins with `/nix/store/`.
pub open spec fn attr_match(line: Seq<u8>) -> bool {
    &&& starts_with(line, attr_prefix())
    &&& line.len() >= attr_prefix().len() + 1
    &&& line[line.len() - 1] == 39u8
    &&& last_sep(line, attr_prefix().len() as int, true) >= 0
}

/// The attribute-name capture of an [`attr_match`] line.
pub open spec fn attr_name_capture(line: Seq<u8>) -> Seq<u8> {
    line.subrange(attr_prefix().len() as int, last_sep(line, attr_prefix().len() as int, true))
}

/// The artifact-path capture of an [`attr_match`] line, beginning with
/// `/nix/store/`.
pub open spec fn attr_drv_capture(line: Seq<u8>) -> Seq<u8> {
    line.subrange(last_sep(line, attr_prefix().len() as int, true) + 6, line.len() - 1)
}

// ---------------------------------------------------------------------------
// Classification.
// ---------------------------------------------------------------------------

/// The classification of one stderr line.
///
/// A line that is not valid UTF-8 is opaque text. Otherwise the four
/// recognizers are tried in a fixed order and the first match decides;
/// a line no recognizer matches is opaque text.
pub open spec fn classify(line: Seq<u8>) -> LogDatumView {
    if !is_valid_utf8(line) {
        LogDatumView::Text(line)
    } else if wrapped_match(line, eval_file_prefix()) {
        LogDatumView::Source(wrapped_capture(line, eval_file_prefix()))
    } else if copied_match(line) {
        LogDatumView::Source(copied_capture(line))
    } else if wrapped_match(line, read_prefix()) {
        LogDatumView::Source(wrapped_capture(line, read_prefix()))
    } else if attr_match(line) {
        LogDatumView::AttrDrv(attr_name_capture(line), attr_drv_capture(line))
    } else {
        LogDatumView::Text(line)
    }
}

fn match_wrapped(line: &Vec<u8>, prefix: &Vec<u8>) -> (r: Option<Vec<u8>>)
    ensures
        match r {
            Some(c) => wrapped_match(line@, prefix@) && c@ == wrapped_capture(line@, prefix@),
            None => !wrapped_match(line@, prefix@),
        },
{
    let n = line.len();
    let m = prefix.len();
    if n <= m {
        return None;
    }
    if line[n - 1] != 39u8 {
        return None;
    }
    if !bytes_eq_at(line, 0, prefix) {
        return None;
    }
    Some(slice_bytes(line, m, n - 1))
}

fn find_last_sep(line: &Vec<u8>, lo: usize, need_store: bool, sep: &Vec<u8>, store: &Vec<u8>) -> (r:
    Option<usize>)
    requires
        sep@ == arrow_sep(),
        store@ == store_prefix(),
    ensures
        match r {
            Some(i) => last_sep(line@, lo as int, need_store) == i,
            None => last_sep(line@, lo as int, need_store) == -1,
        },
{
    let n = line.len();
    if n < 7 {
        proof {
            assert(last_sep_from(line@, lo as int, need_store, n - 7) == -1);
        }
        return None;
    }
    let mut i: usize = n - 7;
    loop
        invariant
            n == line@.len(),
            n >= 7,
            i <= n - 7,
            sep@ == arrow_sep(),
            store@ == store_prefix(),
            last_sep(line@, lo as int, need_store) == last_sep_from(
                line@,
                lo as int,
                need_store,
                i as int,
            ),
        decreases i,
    {
        if i < lo {
            return None;
        }
        let sep_here = bytes_eq_at(line, i, sep) && (!need_store || (n - i >= 18 && bytes_eq_at(
            line,
            i + 6,
            store,
        )));
        proof {
            assert(sep_here == sep_ok(line@, lo as int, need_store, i as int));
        }
        if sep_here {
            return Some(i);
        }
        if i == 0 {
            proof {
                assert(last_sep_from(line@, lo as int, need_store, -1) == -1);
            }
            return None;
        }
        i = i - 1;
    }
}

fn match_copied(line: &Vec<u8>, prefix: &Vec<u8>, sep: &Vec<u8>, store: &Vec<u8>) -> (r: Option<
    Vec<u8>,
>)
    requires
        prefix@ == copied_prefix(),
        sep@ == arrow_sep(),
        store@ == store_prefix(),
    ensures
        match r {
            Some(c) => copied_match(line@) && c@ == copied_capture(line@),
            None => !copied_match(line@),
        },
{
    let n = line.len();
    let m = prefix.len();
    if n <= m {
        return None;
    }
    if line[n - 1] != 39u8 {
        return None;
    }
    if !bytes_eq_at(line, 0, prefix) {
        return None;
    }
    match find_last_sep(line, m, false, sep, store) {
        None => None,
        Some(i) => {
            proof {
                lemma_last_sep_bounds(line@, m as int, false, line@.len() - 7);
            }
            Some(slice_bytes(line, m, i))
        },
    }
}

fn match_attr(line: &Vec<u8>, prefix: &Vec<u8>, sep: &Vec<u8>, store: &Vec<u8>) -> (r: Option<(
    Vec<u8>,
    Vec<u8>,
)>)
    requires
        prefix@ == attr_prefix(),
        sep@ == arrow_sep(),
        store@ == store_prefix(),
    ensures
        match r {
            Some(c) => attr_match(line@) && c.0@ == attr_name_capture(line@) && c.1@
                == attr_drv_capture(line@),
            None => !attr_match(line@),
        },
{
    let n = line.len();
    let m = prefix.len();
    if n <= m {
        return None;
    }
    if line[n - 1] != 39u8 {
        return None;
    }
    if !bytes_eq_at(line, 0, prefix) {
        return None;
    }
    match find_last_sep(line, m, true, sep, store) {
        None => None,
        Some(i) => {
            proof {
                lemma_last_sep_bounds(line@, m as int, true, line@.len() - 7);
            }
            let name = slice_bytes(line, m, i);
            let drv = slice_bytes(line, i + 6, n - 1);
            Some((name, drv))
        },
    }
}

/// Where `last_sep_from` finds a position, that position is admissible.
proof fn lemma_last_sep_bounds(line: Seq<u8>, lo: int, need_store: bool, i: int)
    requires
        last_sep_from(line, lo, need_store, i) >= 0,
    ensures
        sep_ok(line, lo, need_store, last_sep_from(line, lo, need_store, i)),
        last_sep_from(line, lo, need_store, i) <= i,
    decreases i - lo + 1,
{
    if i >= lo && !sep_ok(line, lo, need_store, i) {
        lemma_last_sep_bounds(line, lo, need_store, i - 1);
    }
}

/// Classifies one stderr line.
///
/// A line that is not valid UTF-8 is opaque text; otherwise the four
/// recognizers decide, the first match winning; an unmatched line is
/// opaque text.
pub fn parse_evaluation_line(line: &Vec<u8>) -> (d: LogDatum)
    ensures
        d@ == classify(line@),
{
    if !utf8_valid(line) {
        return LogDatum::Text(clone_bytes(line));
    }
    let evalp = eval_file_prefix_vec();
    if let Some(src) = match_wrapped(line, &evalp) {
        return LogDatum::Source(src);
    }
    let copiedp = copied_prefix_vec();
    let sep = arrow_sep_vec();
    let store = store_prefix_vec();
    if let Some(src) = match_copied(line, &copiedp, &sep, &store) {
        return LogDatum::Source(src);
    }
    let readp = read_prefix_vec();
    if let Some(src) = match_wrapped(line, &readp) {
        return LogDatum::Source(src);
    }
    let attrp = attr_prefix_vec();
    if let Some(nd) = match_attr(line, &attrp, &sep, &store) {
        return LogDatum::AttrDrv(nd.0, nd.1);
    }
    LogDatum::Text(clone_bytes(line))
}


// ---------------------------------------------------------------------------
// Order independence of the recognizers.
// ---------------------------------------------------------------------------

proof fn lemma_starts_with_index(line: Seq<u8>, p: Seq<u8>, k: int)
    requires
        starts_with(line, p),
        0 <= k < p.len(),
    ensures
        line[k] == p[k],
{
    assert(line.subrange(0, p.len() as int)[k] == line[k]);
}

/// No line matches two of the four recognizers: their fixed prefixes
/// disagree at some position, so matches are mutually exclusive on every
/// input, well formed or not.
pub proof fn lemma_patterns_mutually_exclusive(line: Seq<u8>)
    ensures
        !(wrapped_match(line, eval_file_prefix()) && copied_match(line)),
        !(wrapped_match(line, eval_file_prefix()) && wrapped_match(line, read_prefix())),
        !(wrapped_match(line, eval_file_prefix()) && attr_match(line)),
        !(copied_match(line) && wrapped_match(line, read_prefix())),
        !(copied_match(line) && attr_match(line)),
        !(wrapped_match(line, read_prefix()) && attr_match(line)),
{
    if wrapped_match(line, eval_file_prefix()) {
        lemma_starts_with_index(line, eval_file_prefix(), 0);
    }
    if copied_match(line) {
        lemma_starts_with_index(line, copied_prefix(), 0);
    }
    if wrapped_match(line, read_prefix()) {
        lemma_starts_with_index(line, read_prefix(), 0);
        lemma_starts_with_index(line, read_prefix(), 13);
    }
    if attr_match(line) {
        lemma_starts_with_index(line, attr_prefix(), 0);
        lemma_starts_with_index(line, attr_prefix(), 13);
    }
}

/// On a line that one recognizer matches, the classification is that
/// recognizer's datum, whatever the order the recognizers are tried in:
/// by [`lemma_patterns_mutually_exclusive`] no other recognizer can
/// claim the line.
pub proof fn lemma_classification_order_independent(line: Seq<u8>)
    requires
        is_valid_utf8(line),
    ensures
        wrapped_match(line, eval_file_prefix()) ==> classify(line) == LogDatumView::Source(
            wrapped_capture(line, eval_file_prefix()),
        ),
        copied_match(line) ==> classify(line) == LogDatumView::Source(copied_capture(line)),
        wrapped_match(line, read_prefix()) ==> classify(line) == LogDatumView::Source(
            wrapped_capture(line, read_prefix()),
        ),
        attr_match(line) ==> classify(line) == LogDatumView::AttrDrv(
            attr_name_capture(line),
            attr_drv_capture(line),
        ),
{
    lemma_patterns_mutually_exclusive(line);
}

// ---------------------------------------------------------------------------
// Splitting a byte stream into lines.
// ---------------------------------------------------------------------------

/// Position of the first newline in `s`, or `s.len()` when there is none.
pub open spec fn first_nl(s: Seq<u8>) -> nat
    decreases s.len(),
{
    if s.len() == 0 {
        0
    } else if s[0] == 10u8 {
        0
    } else {
        1 + first_nl(s.drop_first())
    }
}

/// The non-empty lines of `s`, split on newline, in order.
pub open spec fn split_lines_spec(s: Seq<u8>) -> Seq<Seq<u8>>
    decreases s.len(),
{
    if s.len() == 0 {
        Seq::empty()
    } else {
        let i = first_nl(s) as int;
        if i >= s.len() {
            seq![s]
        } else {
            let head = s.subrange(0, i);
            let rest = split_lines_spec(s.subrange(i + 1, s.len() as int));
            if head.len() > 0 {
                seq![head] + rest
            } else {
                rest
            }
        }
    }
}

proof fn lemma_first_nl_is(t: Seq<u8>, k: int)
    requires
        0 <= k <= t.len(),
        forall|m: int| 0 <= m < k ==> t[m] != 10u8,
        k < t.len() ==> t[k] == 10u8,
    ensures
        first_nl(t) == k,
    decreases k,
{
    if t.len() == 0 {
    } else if t[0] == 10u8 {
        assert(k == 0);
    } else {
        assert(k >= 1);
        let t2 = t.drop_first();
        assert(forall|m: int| 0 <= m < k - 1 ==> t2[m] != 10u8);
        lemma_first_nl_is(t2, k - 1);
    }
}

/// Splits a byte stream on newline, dropping empty lines.
pub fn split_lines(bytes: &Vec<u8>) -> (lines: Vec<Vec<u8>>)
    ensures
        lines@.map_values(|l: Vec<u8>| l@) == split_lines_spec(bytes@),
{
    let n = bytes.len();
    let mut out: Vec<Vec<u8>> = Vec::new();
    let mut i: usize = 0;
    proof {
        assert(bytes@.subrange(0, n as int) =~= bytes@);
        assert(out@.map_values(|l: Vec<u8>| l@) + split_lines_spec(bytes@) =~= split_lines_spec(
            bytes@,
        ));
    }
    while i < n
        invariant
            i <= n,
            n == bytes@.len(),
            split_lines_spec(bytes@) == out@.map_values(|l: Vec<u8>| l@) + split_lines_spec(
                bytes@.subrange(i as int, n as int),
            ),
        decreases n - i,
    {
        let mut j: usize = i;
        while j < n && bytes[j] != 10u8
            invariant
                i <= j <= n,
                n == bytes@.len(),
                forall|m: int| i <= m < j ==> bytes@[m] != 10u8,
            decreases n - j,
        {
            j = j + 1;
        }
        let head = slice_bytes(bytes, i, j);
        proof {
            let s = bytes@;
            let t = s.subrange(i as int, n as int);
            assert(forall|m: int| 0 <= m < j - i ==> t[m] != 10u8);
            lemma_first_nl_is(t, j - i);
            if j < n {
                assert(t.subrange(0, j - i) =~= s.subrange(i as int, j as int));
                assert(t.subrange(j - i + 1, t.len() as int) =~= s.subrange(j + 1, n as int));
            } else {
                assert(t =~= s.subrange(i as int, j as int));
            }
        }
        if head.len() > 0 {
            out.push(head);
            proof {
                let f = |l: Vec<u8>| l@;
                assert(out@.map_values(f) =~= out@.drop_last().map_values(f).push(head@));
            }
        }
        if j < n {
            i = j + 1;
        } else {
            i = n;
            proof {
                assert(split_lines_spec(bytes@.subrange(n as int, n as int)) =~= Seq::<Seq<u8>>::empty());
            }
        }
    }
    proof {
        assert(split_lines_spec(bytes@.subrange(n as int, n as int)) =~= Seq::<Seq<u8>>::empty());
        assert(out@.map_values(|l: Vec<u8>| l@) + Seq::<Seq<u8>>::empty() =~= out@.map_values(
            |l: Vec<u8>| l@,
        ));
    }
    out
}

/// Classifies every line of a stream: one datum per line, no drops.
pub fn classify_lines(lines: &Vec<Vec<u8>>) -> (data: Vec<LogDatum>)
    ensures
        data@.len() == lines@.len(),
        forall|k: int| 0 <= k < lines@.len() ==> data@[k]@ == classify(lines@[k]@),
{
    let n = lines.len();
    let mut data: Vec<LogDatum> = Vec::new();
    let mut i: usize = 0;
    while i < n
        invariant
            i <= n,
            n == lines@.len(),
            data@.len() == i,
            forall|k: int| 0 <= k < i ==> data@[k]@ == classify(lines@[k]@),
        decreases n - i,
    {
        let d = parse_evaluation_line(&lines[i]);
        data.push(d);
        i = i + 1;
    }
    data
}

} // verus!
