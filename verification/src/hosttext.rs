//! Text for hosts: NUL-terminated bytes, NUL-terminated UTF-16, and class
//! ids.
use vstd::prelude::*;
use vstd::string::*;

use crate::text;
use crate::text::chars_of;

verus! {

/// A fixed field after a text was written into it: as many bytes as fit, a
/// NUL behind them, the rest as it was.
pub open spec fn field_after<T>(field: Seq<T>, content: Seq<T>, nul: T) -> Seq<T> {
    let n = if content.len() < field.len() {
        content.len() as int
    } else {
        field.len() - 1
    };
    if field.len() == 0 {
        field
    } else {
        content.take(n).push(nul) + field.skip(n + 1)
    }
}

/// Write a text into a NUL-terminated byte field, cut to what fits.
pub fn write_cstr(dst: &mut [u8], s: &str)
    ensures
        final(dst)@ == field_after(old(dst)@, s.spec_bytes(), 0u8),
{
    let bytes = s.as_bytes();
    let len: usize = dst.len();
    if len == 0 {
        return;
    }
    let n: usize = if bytes.len() < len {
        bytes.len()
    } else {
        len - 1
    };
    let mut i: usize = 0;
    while i < n
        invariant
            i <= n <= bytes@.len(),
            n < dst@.len(),
            dst@.len() == old(dst)@.len(),
            forall|k: int| 0 <= k < i ==> (#[trigger] dst@[k]) == bytes@[k],
            forall|k: int| i <= k < dst@.len() ==> (#[trigger] dst@[k]) == old(dst)@[k],
        decreases n - i,
    {
        dst[i] = bytes[i];
        i += 1;
    }
    dst[n] = 0;
    proof {
        assert(dst@ =~= field_after(old(dst)@, s.spec_bytes(), 0u8));
    }
}

/// The bytes of a C string: those of the text, or none at all if the text
/// has a NUL in it.
pub open spec fn c_bytes(s: Seq<u8>) -> Seq<u8> {
    if s.contains(0u8) {
        Seq::empty()
    } else {
        s
    }
}

fn has_nul(bytes: &[u8]) -> (r: bool)
    ensures
        r == bytes@.contains(0u8),
{
    let mut i: usize = 0;
    while i < bytes.len()
        invariant
            i <= bytes.len(),
            forall|k: int| 0 <= k < i ==> (#[trigger] bytes@[k]) != 0,
        decreases bytes.len() - i,
    {
        if bytes[i] == 0 {
            return true;
        }
        i += 1;
    }
    false
}

/// Write a text into a byte field as a C string: a text with a NUL in it is
/// written as the empty one.
pub fn copy_cstring(src: &str, dst: &mut [u8])
    ensures
        final(dst)@ == field_after(old(dst)@, c_bytes(src.spec_bytes()), 0u8),
{
    if has_nul(src.as_bytes()) {
        proof {
            reveal_strlit("");
            assert(""@ =~= Seq::empty());
            assert("".spec_bytes() =~= Seq::<u8>::empty());
        }
        write_cstr(dst, "");
    } else {
        write_cstr(dst, src);
    }
}

/// The UTF-16 units of a character.
pub open spec fn utf16_of(c: char) -> Seq<u16> {
    let u = c as u32 as int;
    if u < 0x1_0000 {
        seq![u as u16]
    } else {
        seq![
            (0xD800 + (u - 0x1_0000) / 0x400) as u16,
            (0xDC00 + (u - 0x1_0000) % 0x400) as u16,
        ]
    }
}

/// The UTF-16 units of a text.
pub open spec fn utf16(s: Seq<char>) -> Seq<u16>
    decreases s.len(),
{
    if s.len() == 0 {
        Seq::empty()
    } else {
        utf16(s.drop_last()) + utf16_of(s.last())
    }
}

/// The UTF-16 units of a text.
pub fn utf16_units(s: &str) -> (r: Vec<u16>)
    ensures
        r@ == utf16(s@),
{
    let chars = chars_of(s);
    let mut out: Vec<u16> = Vec::new();
    let mut i: usize = 0;
    proof {
        assert(chars@.take(0) =~= Seq::empty());
    }
    while i < chars.len()
        invariant
            i <= chars.len(),
            out@ == utf16(chars@.take(i as int)),
        decreases chars.len() - i,
    {
        let u: u32 = chars[i] as u32;
        let ghost before = out@;
        if u < 0x1_0000 {
            out.push(u as u16);
        } else {
            let v: u32 = u - 0x1_0000;
            out.push((0xD800 + v / 0x400) as u16);
            out.push((0xDC00 + v % 0x400) as u16);
        }
        proof {
            assert(chars@.take(i + 1).drop_last() =~= chars@.take(i as int));
            assert(out@ =~= before + utf16_of(chars@[i as int]));
        }
        i += 1;
    }
    proof {
        assert(chars@.take(i as int) =~= chars@);
    }
    out
}

/// A text as NUL-terminated UTF-16.
pub fn wide(s: &str) -> (r: Vec<u16>)
    ensures
        r@ == utf16(s@).push(0u16),
{
    let mut out = utf16_units(s);
    out.push(0);
    out
}

/// Write a text into a NUL-terminated UTF-16 field, cut to what fits.
pub fn copy_wstring(src: &str, dst: &mut [u16])
    ensures
        final(dst)@ == field_after(old(dst)@, utf16(src@), 0u16),
{
    let units = utf16_units(src);
    let len: usize = dst.len();
    if len == 0 {
        return;
    }
    let n: usize = if units.len() < len {
        units.len()
    } else {
        len - 1
    };
    let mut i: usize = 0;
    while i < n
        invariant
            i <= n <= units@.len(),
            n < dst@.len(),
            dst@.len() == old(dst)@.len(),
            forall|k: int| 0 <= k < i ==> (#[trigger] dst@[k]) == units@[k],
            forall|k: int| i <= k < dst@.len() ==> (#[trigger] dst@[k]) == old(dst)@[k],
        decreases n - i,
    {
        dst[i] = units[i];
        i += 1;
    }
    dst[n] = 0;
    proof {
        assert(dst@ =~= field_after(old(dst)@, utf16(src@), 0u16));
    }
}

/// How many units a host's string field is read for at most.
pub const STRING_UNITS: usize = 128;

/// Where a text in a field ends: at the first NUL, or at the cap, or at the
/// end of the field.
pub open spec fn text_end(units: Seq<u16>, from: int) -> int
    decreases units.len() - from,
{
    if from >= units.len() || from >= STRING_UNITS || units[from] == 0 {
        from
    } else {
        text_end(units, from + 1)
    }
}

/// Whether a unit is the first half of a pair.
pub open spec fn is_high(u: u16) -> bool {
    0xD800 <= u < 0xDC00
}

/// Whether a unit is the second half of a pair.
pub open spec fn is_low(u: u16) -> bool {
    0xDC00 <= u < 0xE000
}

/// The text that UTF-16 units spell; a half without its partner becomes the
/// replacement character.
pub open spec fn utf16_lossy(units: Seq<u16>) -> Seq<char>
    decreases units.len(),
{
    if units.len() == 0 {
        Seq::empty()
    } else if is_high(units[0]) && units.len() > 1 && is_low(units[1]) {
        seq![
            (0x1_0000 + (units[0] - 0xD800) * 0x400 + (units[1] - 0xDC00)) as char,
        ] + utf16_lossy(units.skip(2))
    } else if is_high(units[0]) || is_low(units[0]) {
        seq!['\u{FFFD}'] + utf16_lossy(units.skip(1))
    } else {
        seq![units[0] as char] + utf16_lossy(units.skip(1))
    }
}

/// `String::from_utf16_lossy` of the standard library: decodes UTF-16 and
/// puts the replacement character in place of every unpaired surrogate.
#[verifier::external_body]
fn from_utf16_lossy(units: &[u16]) -> (r: String)
    ensures
        r@ == utf16_lossy(units@),
{
    String::from_utf16_lossy(units)
}

/// Read a text from a host's UTF-16 field.
pub fn read_wstring(units: &[u16]) -> (r: String)
    ensures
        r@ == utf16_lossy(units@.take(text_end(units@, 0))),
{
    let mut n: usize = 0;
    while n < units.len() && n < STRING_UNITS && units[n] != 0
        invariant
            n <= units@.len(),
            text_end(units@, 0) == text_end(units@, n as int),
        decreases units.len() - n,
    {
        n += 1;
    }
    from_utf16_lossy(vstd::slice::slice_subrange(units, 0, n))
}

proof fn lemma_lossy_step(c: char, rest: Seq<u16>)
    ensures
        utf16_lossy(utf16_of(c) + rest) == seq![c] + utf16_lossy(rest),
{
    let s = utf16_of(c) + rest;
    let u = c as u32 as int;
    assert(u <= 0x10FFFF && !(0xD800 <= u < 0xE000));
    if u < 0x1_0000 {
        assert(s[0] == u as u16);
        assert(s.skip(1) =~= rest);
    } else {
        let v = u - 0x1_0000;
        assert(0 <= v < 0x10_0000);
        assert(0 <= v / 0x400 < 0x400);
        assert(s[0] == (0xD800 + v / 0x400) as u16);
        assert(s[1] == (0xDC00 + v % 0x400) as u16);
        assert(s.skip(2) =~= rest);
    }
}

proof fn lemma_utf16_front(c: char, rest: Seq<char>)
    ensures
        utf16(seq![c] + rest) == utf16_of(c) + utf16(rest),
    decreases rest.len(),
{
    let s = seq![c] + rest;
    if rest.len() == 0 {
        assert(s.drop_last() =~= Seq::<char>::empty());
        assert(utf16(Seq::<char>::empty()) =~= Seq::<u16>::empty());
        assert(s.last() == c);
        assert(utf16(s) =~= utf16_of(c));
        assert(utf16_of(c) + utf16(rest) =~= utf16_of(c));
    } else {
        lemma_utf16_front(c, rest.drop_last());
        assert(s.drop_last() =~= seq![c] + rest.drop_last());
        assert(utf16(s) =~= utf16_of(c) + utf16(rest));
    }
}

/// A text written as UTF-16 is read back unchanged.
pub proof fn law_utf16_reads_back(s: Seq<char>)
    ensures
        utf16_lossy(utf16(s)) == s,
    decreases s.len(),
{
    if s.len() == 0 {
        assert(utf16(s) =~= Seq::empty());
        assert(utf16_lossy(utf16(s)) =~= s);
    } else {
        let rest = s.drop_first();
        assert(s =~= seq![s[0]] + rest);
        lemma_utf16_front(s[0], rest);
        lemma_lossy_step(s[0], utf16(rest));
        law_utf16_reads_back(rest);
    }
}

proof fn lemma_text_end(units: Seq<u16>, from: int, n: int)
    requires
        0 <= from <= n <= units.len(),
        n <= STRING_UNITS,
        forall|k: int| from <= k < n ==> (#[trigger] units[k]) != 0,
        n == units.len() || n == STRING_UNITS || units[n] == 0,
    ensures
        text_end(units, from) == n,
    decreases n - from,
{
    if from < n {
        assert(units[from] != 0);
        lemma_text_end(units, from + 1, n);
    }
}

/// A text without a NUL that fits a host's string field is read back from it
/// unchanged.
pub proof fn law_string_fields_read_back(field: Seq<u16>, s: Seq<char>)
    requires
        utf16(s).len() < field.len() <= STRING_UNITS,
        !utf16(s).contains(0u16),
    ensures
        ({
            let after = field_after(field, utf16(s), 0u16);
            utf16_lossy(after.take(text_end(after, 0))) == s
        }),
{
    let units = utf16(s);
    let after = field_after(field, units, 0u16);
    let n = units.len() as int;
    assert(units.take(n) =~= units);
    assert forall|k: int| 0 <= k < n implies (#[trigger] after[k]) != 0 by {
        assert(after[k] == units[k]);
    }
    assert(after[n] == 0);
    lemma_text_end(after, 0, n);
    assert(after.take(n) =~= units);
    law_utf16_reads_back(s);
}

/// A field always ends in a NUL and keeps its size.
pub proof fn law_fields_are_terminated<T>(field: Seq<T>, content: Seq<T>, nul: T)
    requires
        field.len() > 0,
    ensures
        field_after(field, content, nul).len() == field.len(),
        exists|k: int|
            0 <= k < field.len() && (#[trigger] field_after(field, content, nul)[k]) == nul,
{
    let n = if content.len() < field.len() {
        content.len() as int
    } else {
        field.len() - 1
    };
    assert(field_after(field, content, nul)[n] == nul);
}

/// One FNV-1a step over 64 bits.
pub open spec fn fnv64_step(hash: u64, byte: u8) -> u64 {
    ((hash ^ (byte as u64)) as int * 0x100_0000_01b3 % 0x1_0000_0000_0000_0000) as u64
}

/// FNV-1a over 64 bits, from a given offset basis.
pub open spec fn fnv64(basis: u64, bytes: Seq<u8>) -> u64
    decreases bytes.len(),
{
    if bytes.len() == 0 {
        basis
    } else {
        fnv64_step(fnv64(basis, bytes.drop_last()), bytes.last())
    }
}

/// FNV-1a over 64 bits, from a given offset basis.
pub fn hash_bytes(basis: u64, bytes: &[u8]) -> (r: u64)
    ensures
        r == fnv64(basis, bytes@),
{
    let mut hash: u64 = basis;
    let mut i: usize = 0;
    while i < bytes.len()
        invariant
            i <= bytes.len(),
            hash == fnv64(basis, bytes@.take(i as int)),
        decreases bytes.len() - i,
    {
        proof {
            assert(bytes@.take(i + 1).drop_last() =~= bytes@.take(i as int));
        }
        hash = (hash ^ (bytes[i] as u64)).wrapping_mul(0x100_0000_01b3);
        i += 1;
    }
    proof {
        assert(bytes@.take(i as int) =~= bytes@);
    }
    hash
}

/// Byte `b` of a 64-bit hash folded to 32 bits, highest byte first.
pub open spec fn folded_byte(hash: u64, b: int) -> u8 {
    let high = (hash as int / pow256(7 - b) % 0x100) as u8;
    let low = (hash as int / pow256(3 - b) % 0x100) as u8;
    high ^ low
}

/// The first powers of 256.
pub open spec fn pow256(n: int) -> int {
    if n == 0 {
        1
    } else if n == 1 {
        0x100
    } else if n == 2 {
        0x1_0000
    } else if n == 3 {
        0x100_0000
    } else if n == 4 {
        0x1_0000_0000
    } else if n == 5 {
        0x100_0000_0000
    } else if n == 6 {
        0x1_0000_0000_0000
    } else {
        0x100_0000_0000_0000
    }
}

/// The offset bases of the four words of a class id.
pub open spec fn class_basis(word: int) -> u64 {
    if word == 0 {
        0xcbf2_9ce4_8422_2325
    } else if word == 1 {
        0x9e37_79b9_7f4a_7c15
    } else if word == 2 {
        0xff51_afd7_ed55_8ccd
    } else {
        0xc4ce_b9fe_1a85_ec53
    }
}

/// The class id of a plugin id: four hashes, each folded to four bytes.
pub open spec fn class_id(id: Seq<u8>) -> Seq<u8> {
    Seq::new(16, |i: int| folded_byte(fnv64(class_basis(i / 4), id), i % 4))
}

fn fold(hash: u64) -> (r: [u8; 4])
    ensures
        forall|b: int| 0 <= b < 4 ==> (#[trigger] r@[b]) == folded_byte(hash, b),
{
    proof {
        assert((hash >> 56) & 0xff == hash / 0x100_0000_0000_0000 % 0x100) by (bit_vector);
        assert((hash >> 48) & 0xff == hash / 0x1_0000_0000_0000 % 0x100) by (bit_vector);
        assert((hash >> 40) & 0xff == hash / 0x100_0000_0000 % 0x100) by (bit_vector);
        assert((hash >> 32) & 0xff == hash / 0x1_0000_0000 % 0x100) by (bit_vector);
        assert((hash >> 24) & 0xff == hash / 0x100_0000 % 0x100) by (bit_vector);
        assert((hash >> 16) & 0xff == hash / 0x1_0000 % 0x100) by (bit_vector);
        assert((hash >> 8) & 0xff == hash / 0x100 % 0x100) by (bit_vector);
        assert(hash & 0xff == hash % 0x100) by (bit_vector);
    }
    [
        ((hash >> 56) & 0xff) as u8 ^ ((hash >> 24) & 0xff) as u8,
        ((hash >> 48) & 0xff) as u8 ^ ((hash >> 16) & 0xff) as u8,
        ((hash >> 40) & 0xff) as u8 ^ ((hash >> 8) & 0xff) as u8,
        ((hash >> 32) & 0xff) as u8 ^ (hash & 0xff) as u8,
    ]
}

/// Derive a stable class id from a plugin id. Hosts key saved projects on it.
pub fn derive_cid(plugin_id: &str) -> (r: [u8; 16])
    ensures
        r@ == class_id(plugin_id.spec_bytes()),
{
    let bytes = plugin_id.as_bytes();
    let a: [u8; 4] = fold(hash_bytes(0xcbf2_9ce4_8422_2325, bytes));
    let b: [u8; 4] = fold(hash_bytes(0x9e37_79b9_7f4a_7c15, bytes));
    let c: [u8; 4] = fold(hash_bytes(0xff51_afd7_ed55_8ccd, bytes));
    let d: [u8; 4] = fold(hash_bytes(0xc4ce_b9fe_1a85_ec53, bytes));
    let r: [u8; 16] = [
        a[0],
        a[1],
        a[2],
        a[3],
        b[0],
        b[1],
        b[2],
        b[3],
        c[0],
        c[1],
        c[2],
        c[3],
        d[0],
        d[1],
        d[2],
        d[3],
    ];
    proof {
        assert forall|i: int| 0 <= i < 16 implies (#[trigger] r@[i]) == class_id(
            plugin_id.spec_bytes(),
        )[i] by {
            assert(a@[i % 4] == folded_byte(fnv64(class_basis(0), bytes@), i % 4));
            assert(b@[i % 4] == folded_byte(fnv64(class_basis(1), bytes@), i % 4));
            assert(c@[i % 4] == folded_byte(fnv64(class_basis(2), bytes@), i % 4));
            assert(d@[i % 4] == folded_byte(fnv64(class_basis(3), bytes@), i % 4));
        }
        assert(r@ =~= class_id(plugin_id.spec_bytes()));
    }
    r
}

/// A text without the white space around it.
pub open spec fn trimmed(s: Seq<char>) -> Seq<char> {
    let t = s.skip(text::leading_space(s));
    t.take(t.len() - trailing_space(t))
}

/// How many characters of white space come last.
pub open spec fn trailing_space(s: Seq<char>) -> int
    decreases s.len(),
{
    if s.len() > 0 && text::is_space(s.last()) {
        1 + trailing_space(s.drop_last())
    } else {
        0
    }
}

/// A text without the white space around it.
pub fn trim(s: &str) -> (r: String)
    ensures
        r@ == trimmed(s@),
{
    let chars = chars_of(s);
    let n: usize = chars.len();
    let mut start: usize = 0;
    while start < n && text::is_whitespace(chars[start])
        invariant
            chars@ == s@,
            n == chars@.len(),
            start <= n,
            forall|k: int| 0 <= k < start ==> text::is_space(#[trigger] chars@[k]),
        decreases n - start,
    {
        start += 1;
    }
    proof {
        text::lemma_leading_space(s@);
        let l = text::leading_space(s@);
        if l < start {
            assert(text::is_space(chars@[l]));
        }
        if start < l {
            assert(text::is_space(s@[start as int]));
        }
    }
    let ghost t = s@.skip(start as int);
    let mut end: usize = n;
    proof {
        assert(t.take(t.len() as int) =~= t);
    }
    while end > start && text::is_whitespace(chars[end - 1])
        invariant
            chars@ == s@,
            n == chars@.len(),
            start <= end <= n,
            t == s@.skip(start as int),
            trailing_space(t) == n - end + trailing_space(t.take(end - start)),
        decreases end - start,
    {
        proof {
            let part = t.take(end - start);
            assert(part.last() == chars@[end - 1]);
            assert(part.drop_last() =~= t.take(end - start - 1));
        }
        end -= 1;
    }
    proof {
        let part = t.take(end - start);
        if end > start {
            assert(part.last() == chars@[end - 1]);
        }
        assert(trailing_space(part) == 0);
        assert(s@.subrange(start as int, end as int) =~= trimmed(s@));
    }
    s.substring_char(start, end).to_owned()
}

/// Text is put into a field from its start, as much of it as fits before the
/// end mark that follows it at once; the rest of the field is as it was.
pub proof fn law_fields_hold_the_text<T>(field: Seq<T>, content: Seq<T>, nul: T, i: int)
    ensures
        field_after(field, content, nul).len() == field.len(),
        0 <= i < content.len() && i + 1 < field.len() ==> field_after(field, content, nul)[i]
            == content[i],
        content.len() < field.len() ==> field_after(field, content, nul)[content.len() as int]
            == nul,
        field.len() > 0 && content.len() >= field.len() ==> field_after(
            field,
            content,
            nul,
        )[field.len() - 1] == nul,
        content.len() < i < field.len() ==> field_after(field, content, nul)[i] == field[i],
{
}

/// Text with a zero byte in it counts as empty; any other is taken as it is.
pub proof fn law_texts_with_a_zero_are_empty(s: Seq<u8>, i: int)
    ensures
        0 <= i < s.len() && s[i] == 0 ==> c_bytes(s).len() == 0,
        (forall|j: int| 0 <= j < s.len() ==> (#[trigger] s[j]) != 0) ==> c_bytes(s) == s,
{
}

/// Wide text is written character by character: one unit with the character's
/// code, or, for a code past sixteen bits, a high and a low unit that hold the
/// upper and the lower ten bits of what is left after taking 65536 away.
pub proof fn law_wide_text_is_written_by_character(front: Seq<char>, back: Seq<char>, c: char)
    ensures
        utf16(Seq::empty()) == Seq::<u16>::empty(),
        utf16(front + back) == utf16(front) + utf16(back),
        (c as u32) < 65536 ==> utf16(seq![c]).len() == 1 && utf16(seq![c])[0] == c as u32,
        (c as u32) >= 65536 ==> utf16(seq![c]).len() == 2 && 55296 <= utf16(seq![c])[0] < 56320
            && 56320 <= utf16(seq![c])[1] < 57344 && 65536 + (utf16(seq![c])[0] - 55296) * 1024 + (
        utf16(seq![c])[1] - 56320) == c as u32,
    decreases back.len(),
{
    assert(utf16(Seq::empty()) =~= Seq::<u16>::empty());
    assert(seq![c].drop_last() =~= Seq::<char>::empty());
    assert(seq![c].last() == c);
    assert(utf16(seq![c]) =~= utf16_of(c));
    if back.len() == 0 {
        assert(front + back =~= front);
        assert(utf16(front + back) =~= utf16(front) + utf16(back));
    } else {
        law_wide_text_is_written_by_character(front, back.drop_last(), c);
        assert((front + back).drop_last() =~= front + back.drop_last());
        assert((front + back).last() == back.last());
        assert(utf16(front + back) =~= utf16(front) + utf16(back));
    }
}

/// Wide text ends at its first zero unit, at the end of the field, or after 128
/// units, whichever comes first.
pub proof fn law_wide_text_ends_at_the_first_zero(units: Seq<u16>, from: int, j: int)
    requires
        0 <= from <= units.len(),
        from <= 128,
    ensures
        from <= text_end(units, from) <= units.len(),
        text_end(units, from) <= 128,
        from <= j < text_end(units, from) ==> units[j] != 0,
        text_end(units, from) < units.len() && text_end(units, from) < 128 ==> units[text_end(
            units,
            from,
        )] == 0,
    decreases units.len() - from,
{
    if from < units.len() && from < 128 && units[from] != 0 {
        law_wide_text_ends_at_the_first_zero(units, from + 1, j);
    }
}

/// Hashing folds each byte into the low bits and multiplies by 1099511628211
/// modulo the width.
pub proof fn law_hashing_folds_in_one_byte_at_a_time(basis: u64, bytes: Seq<u8>, byte: u8)
    ensures
        fnv64(basis, Seq::empty()) == basis,
        fnv64(basis, bytes.push(byte)) == ((fnv64(basis, bytes) ^ (byte as u64)) * 1099511628211)
            % 18446744073709551616,
{
    assert(bytes.push(byte).drop_last() =~= bytes);
}

/// A class id is made of four hashes of the plugin's id, each from a start of
/// its own. Each hash gives four bytes: those of its upper half, highest first,
/// each combined with the byte at the same place in its lower half.
pub proof fn law_class_ids_are_four_folded_hashes(id: Seq<u8>, b: int)
    requires
        0 <= b < 4,
    ensures
        class_id(id).len() == 16,
        class_id(id)[b] == folded_byte(fnv64(0xcbf2_9ce4_8422_2325, id), b),
        class_id(id)[4 + b] == folded_byte(fnv64(0x9e37_79b9_7f4a_7c15, id), b),
        class_id(id)[8 + b] == folded_byte(fnv64(0xff51_afd7_ed55_8ccd, id), b),
        class_id(id)[12 + b] == folded_byte(fnv64(0xc4ce_b9fe_1a85_ec53, id), b),
        pow256(0) == 1,
        pow256(b + 1) == 256 * pow256(b),
        pow256(b + 4) == 4294967296 * pow256(b),
        forall|hash: u64| #[trigger]
            folded_byte(hash, b) == ((hash as int / pow256(7 - b)) % 256) as u8 ^ ((hash as int
                / pow256(3 - b)) % 256) as u8,
{
    assert((4 + b) / 4 == 1 && (4 + b) % 4 == b);
    assert((8 + b) / 4 == 2 && (8 + b) % 4 == b);
    assert((12 + b) / 4 == 3 && (12 + b) % 4 == b);
    assert(b / 4 == 0 && b % 4 == b);
}

/// Trimming takes away the spaces at both ends and nothing else: text is the
/// trimmed text between two runs of spaces, and what is left neither starts nor
/// ends with one.
pub proof fn law_trimming_takes_the_outer_spaces(s: Seq<char>) -> (r: (Seq<char>, Seq<char>))
    ensures
        s == r.0 + trimmed(s) + r.1,
        forall|i: int| 0 <= i < r.0.len() ==> text::is_space(#[trigger] r.0[i]),
        forall|i: int| 0 <= i < r.1.len() ==> text::is_space(#[trigger] r.1[i]),
        trimmed(s).len() > 0 ==> !text::is_space(trimmed(s)[0]) && !text::is_space(
            trimmed(s).last(),
        ),
{
    let n = text::leading_space(s);
    text::lemma_leading_space(s);
    let t = s.skip(n);
    let m = trailing_space(t);
    lemma_trailing_space(t);
    let front = s.take(n);
    let back = t.skip(t.len() - m);
    assert(s =~= front + trimmed(s) + back);
    if trimmed(s).len() > 0 {
        assert(trimmed(s)[0] == s[n]);
        assert(trimmed(s).last() == t[t.len() - m - 1]);
    }
    (front, back)
}

proof fn lemma_trailing_space(s: Seq<char>)
    ensures
        0 <= trailing_space(s) <= s.len(),
        forall|i: int|
            s.len() - trailing_space(s) <= i < s.len() ==> text::is_space(#[trigger] s[i]),
        trailing_space(s) < s.len() ==> !text::is_space(s[s.len() - trailing_space(s) - 1]),
    decreases s.len(),
{
    if s.len() > 0 && text::is_space(s.last()) {
        let rest = s.drop_last();
        lemma_trailing_space(rest);
        assert forall|i: int| s.len() - trailing_space(s) <= i < s.len() implies text::is_space(
            #[trigger] s[i],
        ) by {
            if i < rest.len() {
                assert(rest[i] == s[i]);
            }
        }
        if trailing_space(rest) < rest.len() {
            assert(rest[rest.len() - trailing_space(rest) - 1] == s[s.len() - trailing_space(s)
                - 1]);
        }
    }
}

/// Wide text is read unit by unit: a high unit and the low one behind it are
/// one character, either of them alone is the replacement character, and any
/// other unit is the character with that code.
pub proof fn law_wide_text_is_read_by_unit(u: u16, v: u16, rest: Seq<u16>)
    ensures
        utf16_lossy(Seq::empty()).len() == 0,
        !(55296 <= u < 57344) ==> utf16_lossy(seq![u] + rest) == seq![u as char] + utf16_lossy(rest),
        55296 <= u < 56320 && 56320 <= v < 57344 ==> utf16_lossy(seq![u, v] + rest) == seq![
            (65536 + (u - 55296) * 1024 + (v - 56320)) as char,
        ] + utf16_lossy(rest),
        56320 <= u < 57344 ==> utf16_lossy(seq![u] + rest) == seq!['\u{FFFD}'] + utf16_lossy(rest),
        55296 <= u < 56320 && (rest.len() == 0 || !(56320 <= rest[0] < 57344)) ==> utf16_lossy(
            seq![u] + rest,
        ) == seq!['\u{FFFD}'] + utf16_lossy(rest),
{
    let one = seq![u] + rest;
    let two = seq![u, v] + rest;
    assert(one[0] == u && two[0] == u && two[1] == v);
    assert(one.skip(1) =~= rest);
    assert(two.skip(2) =~= rest);
    if rest.len() > 0 {
        assert(one[1] == rest[0]);
    }
}

} // verus!
