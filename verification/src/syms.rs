//! Symbol tables: the text printed by `nm` for an object file, read as a list of symbol
//! names with their addresses, and the choice of the object files mapped in a process
//! whose symbols are read.
//!
//! Each line of `nm` output is split at its first two spaces into an address field, a
//! type field and a name field. Lines without two spaces have no name field. A line whose
//! address field is not a hexadecimal number (an optional `+` and at least one digit, of
//! at most 64 bits) has no address and yields no symbol.

use vstd::prelude::*;

verus! {

/// The index of the first byte `c` in `s`, or the length of `s` where there is none.
pub open spec fn index_of_byte(s: Seq<u8>, c: u8) -> int
    decreases s.len(),
{
    if s.len() == 0 {
        0
    } else if s[0] == c {
        0
    } else {
        1 + index_of_byte(s.drop_first(), c)
    }
}

/// A line without the carriage return that ends it, if it ends with one.
pub open spec fn strip_cr(line: Seq<u8>) -> Seq<u8> {
    if line.len() > 0 && line.last() == 13u8 {
        line.drop_last()
    } else {
        line
    }
}

/// The lines of a text: split at each line feed, with a carriage return before the line
/// feed removed; a final line feed ends the last line and starts no new one.
pub open spec fn text_lines(s: Seq<u8>) -> Seq<Seq<u8>>
    decreases s.len(),
{
    if s.len() == 0 {
        Seq::empty()
    } else {
        let e = index_of_byte(s, 10u8);
        if 0 <= e < s.len() {
            seq![strip_cr(s.take(e))] + text_lines(s.skip(e + 1))
        } else {
            seq![s]
        }
    }
}

/// Whether a line has a name field: it holds at least two spaces.
pub open spec fn has_name_field(line: Seq<u8>) -> bool {
    let a = index_of_byte(line, 32u8);
    &&& 0 <= a < line.len()
    &&& 0 <= index_of_byte(line.skip(a + 1), 32u8) < line.skip(a + 1).len()
}

/// The address field of a line: what precedes its first space.
pub open spec fn addr_field(line: Seq<u8>) -> Seq<u8> {
    line.take(index_of_byte(line, 32u8))
}

/// The name field of a line: what follows its second space.
pub open spec fn name_field(line: Seq<u8>) -> Seq<u8> {
    let rest = line.skip(index_of_byte(line, 32u8) + 1);
    rest.skip(index_of_byte(rest, 32u8) + 1)
}

/// The value of a hexadecimal digit, or -1 for any other byte.
pub open spec fn hex_digit_value(c: u8) -> int {
    if 48 <= c <= 57 {
        c - 48
    } else if 97 <= c <= 102 {
        c - 87
    } else if 65 <= c <= 70 {
        c - 55
    } else {
        -1
    }
}

/// Whether every byte of `s` is a hexadecimal digit.
pub open spec fn all_hex(s: Seq<u8>) -> bool {
    forall|i: int| 0 <= i < s.len() ==> hex_digit_value(#[trigger] s[i]) >= 0
}

/// The number that the hexadecimal digits `s` denote.
pub open spec fn hex_value(s: Seq<u8>) -> nat
    decreases s.len(),
{
    if s.len() == 0 {
        0
    } else {
        hex_value(s.drop_last()) * 16 + hex_digit_value(s.last()) as nat
    }
}

/// The digits of a number field: without its leading `+`, if it has one.
pub open spec fn hex_digits(s: Seq<u8>) -> Seq<u8> {
    if s.len() > 0 && s[0] == 43u8 {
        s.drop_first()
    } else {
        s
    }
}

/// The 64-bit number that a field denotes in base 16, if it denotes one: an optional
/// `+` followed by at least one hexadecimal digit, of a value that fits in 64 bits.
pub open spec fn spec_parse_hex(s: Seq<u8>) -> Option<u64> {
    let d = hex_digits(s);
    if d.len() > 0 && all_hex(d) && hex_value(d) <= u64::MAX {
        Some(hex_value(d) as u64)
    } else {
        None
    }
}

/// The symbol that a line with a name field yields, if its address field is a number.
pub open spec fn line_symbols(line: Seq<u8>) -> Seq<(Seq<u8>, u64)> {
    match spec_parse_hex(addr_field(line)) {
        Some(addr) => seq![(name_field(line), addr)],
        None => Seq::empty(),
    }
}

/// The symbols that `lines` yield, in order.
pub open spec fn symbols_of_lines(lines: Seq<Seq<u8>>) -> Seq<(Seq<u8>, u64)>
    decreases lines.len(),
{
    if lines.len() == 0 {
        Seq::empty()
    } else {
        line_symbols(lines[0]) + symbols_of_lines(lines.drop_first())
    }
}

/// The symbols listed in `nm` output, in order.
pub open spec fn nm_symbols(out: Seq<u8>) -> Seq<(Seq<u8>, u64)> {
    symbols_of_lines(text_lines(out))
}

/// Whether every line of `nm` output has a name field.
pub open spec fn nm_output_complete(out: Seq<u8>) -> bool {
    forall|i: int| 0 <= i < text_lines(out).len() ==> has_name_field(#[trigger] text_lines(out)[i])
}

proof fn lemma_index_of_byte_bounds(s: Seq<u8>, c: u8)
    ensures
        0 <= index_of_byte(s, c) <= s.len(),
    decreases s.len(),
{
    if s.len() > 0 && s[0] != c {
        lemma_index_of_byte_bounds(s.drop_first(), c);
    }
}

proof fn lemma_index_of_byte_is(s: Seq<u8>, c: u8, k: int)
    requires
        0 <= k <= s.len(),
        forall|j: int| 0 <= j < k ==> s[j] != c,
        k == s.len() || s[k] == c,
    ensures
        index_of_byte(s, c) == k,
    decreases k,
{
    if k > 0 {
        assert(s[0] != c);
        lemma_index_of_byte_is(s.drop_first(), c, k - 1);
    }
}

proof fn lemma_hex_prefix_le(s: Seq<u8>, k: int)
    requires
        all_hex(s),
        0 <= k <= s.len(),
    ensures
        hex_value(s.take(k)) <= hex_value(s),
    decreases s.len(),
{
    if k < s.len() {
        assert(all_hex(s.drop_last()));
        assert(s.drop_last().take(k) =~= s.take(k));
        lemma_hex_prefix_le(s.drop_last(), k);
    } else {
        assert(s.take(k) =~= s);
    }
}

/// The number that `s[from..to]` denotes in base 16, as `u64::from_str_radix` reads it.
pub fn parse_hex(s: &Vec<u8>, from: usize, to: usize) -> (r: Option<u64>)
    requires
        from <= to <= s@.len(),
    ensures
        r == spec_parse_hex(s@.subrange(from as int, to as int)),
{
    let ghost field = s@.subrange(from as int, to as int);
    if from == to {
        return None;
    }
    let mut i: usize = from;
    if s[i] == 43u8 {
        i = i + 1;
    }
    let start = i;
    let ghost d = hex_digits(field);
    assert(d =~= s@.subrange(start as int, to as int));
    if start == to {
        return None;
    }
    let mut v: u64 = 0;
    while i < to
        invariant
            start <= i <= to <= s@.len(),
            d == s@.subrange(start as int, to as int),
            d == hex_digits(field),
            field == s@.subrange(from as int, to as int),
            forall|j: int| start <= j < i ==> hex_digit_value(#[trigger] s@[j]) >= 0,
            v as nat == hex_value(s@.subrange(start as int, i as int)),
        decreases to - i,
    {
        let c = s[i];
        let digit: u64 = if 48u8 <= c && c <= 57u8 {
            (c - 48u8) as u64
        } else if 97u8 <= c && c <= 102u8 {
            (c - 87u8) as u64
        } else if 65u8 <= c && c <= 70u8 {
            (c - 55u8) as u64
        } else {
            assert(!all_hex(d)) by {
                assert(d[i - start] == c);
            }
            return None;
        };
        let ghost next = s@.subrange(start as int, i + 1);
        assert(next.drop_last() =~= s@.subrange(start as int, i as int));
        assert(hex_value(next) == v * 16 + digit);
        match v.checked_mul(16) {
            Some(w) => match w.checked_add(digit) {
                Some(x) => {
                    v = x;
                },
                None => {
                    proof {
                        if all_hex(d) {
                            assert(d.take(i + 1 - start) =~= next);
                            lemma_hex_prefix_le(d, i + 1 - start);
                        }
                    }
                    return None;
                },
            },
            None => {
                proof {
                    if all_hex(d) {
                        assert(d.take(i + 1 - start) =~= next);
                        lemma_hex_prefix_le(d, i + 1 - start);
                    }
                }
                return None;
            },
        }
        i = i + 1;
    }
    assert(all_hex(d)) by {
        assert forall|j: int| 0 <= j < d.len() implies hex_digit_value(#[trigger] d[j]) >= 0 by {
            assert(d[j] == s@[start + j]);
        }
    }
    Some(v)
}

/// The bounds of the next line of `out` from `pos`: it spans `out[r.0..r.1]`, and the text
/// after it starts at `r.2`.
fn next_line(out: &Vec<u8>, pos: usize) -> (r: (usize, usize, usize))
    requires
        pos < out@.len(),
    ensures
        pos <= r.0 <= r.1 <= r.2 <= out@.len(),
        pos < r.2,
        text_lines(out@.skip(pos as int)) == seq![out@.subrange(r.0 as int, r.1 as int)] + text_lines(
            out@.skip(r.2 as int),
        ),
{
    let mut e: usize = pos;
    while e < out.len() && out[e] != 10u8
        invariant
            pos <= e <= out@.len(),
            forall|j: int| pos <= j < e ==> out@[j] != 10u8,
        decreases out.len() - e,
    {
        e = e + 1;
    }
    let ghost s = out@.skip(pos as int);
    proof {
        lemma_index_of_byte_is(s, 10u8, e - pos);
    }
    if e < out.len() {
        let line_end = if e > pos && out[e - 1] == 13u8 {
            e - 1
        } else {
            e
        };
        assert(s.take(e - pos) =~= out@.subrange(pos as int, e as int));
        assert(strip_cr(s.take(e - pos)) =~= out@.subrange(pos as int, line_end as int));
        assert(s.skip(e - pos + 1) =~= out@.skip(e + 1));
        (pos, line_end, e + 1)
    } else {
        assert(s =~= out@.subrange(pos as int, e as int));
        assert(out@.skip(e as int) =~= Seq::<u8>::empty());
        assert(text_lines(out@.skip(e as int)) =~= Seq::<Seq<u8>>::empty());
        (pos, e, e)
    }
}

/// The positions of the first two spaces of the line `out[ls..le]`, where it has two.
fn split_fields(out: &Vec<u8>, ls: usize, le: usize) -> (r: Option<(usize, usize)>)
    requires
        ls <= le <= out@.len(),
    ensures
        r is Some <==> has_name_field(out@.subrange(ls as int, le as int)),
        r matches Some((a, b)) ==> {
            &&& ls <= a < b < le
            &&& addr_field(out@.subrange(ls as int, le as int)) == out@.subrange(ls as int, a as int)
            &&& name_field(out@.subrange(ls as int, le as int)) == out@.subrange(b + 1, le as int)
        },
{
    let ghost line = out@.subrange(ls as int, le as int);
    let mut a: usize = ls;
    while a < le && out[a] != 32u8
        invariant
            ls <= a <= le <= out@.len(),
            forall|j: int| ls <= j < a ==> out@[j] != 32u8,
        decreases le - a,
    {
        a = a + 1;
    }
    proof {
        lemma_index_of_byte_is(line, 32u8, a - ls);
    }
    if a == le {
        return None;
    }
    let ghost rest = line.skip(a - ls + 1);
    assert(rest =~= out@.subrange(a + 1, le as int));
    let mut b: usize = a + 1;
    while b < le && out[b] != 32u8
        invariant
            a < le <= out@.len(),
            a + 1 <= b <= le,
            forall|j: int| a + 1 <= j < b ==> out@[j] != 32u8,
        decreases le - b,
    {
        b = b + 1;
    }
    proof {
        lemma_index_of_byte_is(rest, 32u8, b - (a + 1));
    }
    if b == le {
        return None;
    }
    assert(line.take(a - ls) =~= out@.subrange(ls as int, a as int));
    assert(rest.skip(b - (a + 1) + 1) =~= out@.subrange(b + 1, le as int));
    Some((a, b))
}

/// Copies `out[from..to]`.
fn copy_range(out: &Vec<u8>, from: usize, to: usize) -> (r: Vec<u8>)
    requires
        from <= to <= out@.len(),
    ensures
        r@ == out@.subrange(from as int, to as int),
{
    let mut r: Vec<u8> = Vec::new();
    let mut i: usize = from;
    while i < to
        invariant
            from <= i <= to <= out@.len(),
            r@ == out@.subrange(from as int, i as int),
        decreases to - i,
    {
        r.push(out[i]);
        i = i + 1;
        assert(r@ =~= out@.subrange(from as int, i as int));
    }
    r
}

/// Whether every line of `nm` output has a name field.
pub fn nm_output_is_complete(out: &Vec<u8>) -> (r: bool)
    ensures
        r == nm_output_complete(out@),
{
    let mut pos: usize = 0;
    assert(out@.skip(0) =~= out@);
    while pos < out.len()
        invariant
            pos <= out@.len(),
            nm_output_complete(out@) == (forall|i: int|
                0 <= i < text_lines(out@.skip(pos as int)).len() ==> has_name_field(
                    #[trigger] text_lines(out@.skip(pos as int))[i],
                )),
        decreases out.len() - pos,
    {
        let (ls, le, next) = next_line(out, pos);
        let ghost lines = text_lines(out@.skip(pos as int));
        let ghost rest = text_lines(out@.skip(next as int));
        assert(lines[0] == out@.subrange(ls as int, le as int));
        assert forall|i: int| 0 <= i < rest.len() implies #[trigger] rest[i] == lines[i + 1] by {}
        if split_fields(out, ls, le).is_none() {
            return false;
        }
        assert((forall|i: int| 0 <= i < lines.len() ==> has_name_field(#[trigger] lines[i])) == (forall|
            i: int,
        | 0 <= i < rest.len() ==> has_name_field(#[trigger] rest[i]))) by {
            if forall|i: int| 0 <= i < rest.len() ==> has_name_field(#[trigger] rest[i]) {
                assert forall|i: int| 0 <= i < lines.len() implies has_name_field(#[trigger] lines[i]) by {
                    if i > 0 {
                        assert(lines[i] == rest[i - 1]);
                    }
                }
            }
        }
        pos = next;
    }
    assert(out@.skip(pos as int) =~= Seq::<u8>::empty());
    true
}

/// The symbols listed in `nm` output, each a name with its address, in order.
pub fn parse_nm_output(out: &Vec<u8>) -> (r: Vec<(Vec<u8>, u64)>)
    requires
        nm_output_complete(out@),
    ensures
        r@.map_values(|e: (Vec<u8>, u64)| (e.0@, e.1)) == nm_symbols(out@),
{
    let mut syms: Vec<(Vec<u8>, u64)> = Vec::new();
    let mut pos: usize = 0;
    assert(out@.skip(0) =~= out@);
    while pos < out.len()
        invariant
            pos <= out@.len(),
            forall|i: int|
                0 <= i < text_lines(out@.skip(pos as int)).len() ==> has_name_field(
                    #[trigger] text_lines(out@.skip(pos as int))[i],
                ),
            nm_symbols(out@) == syms@.map_values(|e: (Vec<u8>, u64)| (e.0@, e.1)) + symbols_of_lines(
                text_lines(out@.skip(pos as int)),
            ),
        decreases out.len() - pos,
    {
        let (ls, le, next) = next_line(out, pos);
        let ghost lines = text_lines(out@.skip(pos as int));
        let ghost rest = text_lines(out@.skip(next as int));
        let ghost line = out@.subrange(ls as int, le as int);
        assert(lines[0] == line);
        assert(lines.drop_first() =~= rest);
        assert forall|i: int| 0 <= i < rest.len() implies has_name_field(#[trigger] rest[i]) by {
            assert(rest[i] == lines[i + 1]);
        }
        assert(has_name_field(lines[0]));
        let ghost before = syms@.map_values(|e: (Vec<u8>, u64)| (e.0@, e.1));
        match split_fields(out, ls, le) {
            Some((a, b)) => {
                match parse_hex(out, ls, a) {
                    Some(addr) => {
                        let name = copy_range(out, b + 1, le);
                        syms.push((name, addr));
                        assert(syms@.map_values(|e: (Vec<u8>, u64)| (e.0@, e.1)) =~= before + line_symbols(line));
                    },
                    None => {
                        assert(line_symbols(line) =~= Seq::<(Seq<u8>, u64)>::empty());
                        assert(syms@.map_values(|e: (Vec<u8>, u64)| (e.0@, e.1)) =~= before + line_symbols(line));
                    },
                }
            },
            None => {},
        }
        assert(symbols_of_lines(lines) == line_symbols(line) + symbols_of_lines(rest));
        pos = next;
    }
    assert(out@.skip(pos as int) =~= Seq::<u8>::empty());
    assert(text_lines(out@.skip(pos as int)) =~= Seq::<Seq<u8>>::empty());
    assert(nm_symbols(out@) =~= syms@.map_values(|e: (Vec<u8>, u64)| (e.0@, e.1)));
    syms
}

/// A mapping of a process's address space: its permission flags and the file it maps.
pub struct MapRange {
    pub flags: Vec<u8>,
    pub filename: Option<Vec<u8>>,
}

/// The mathematical value of a [`MapRange`].
pub struct MapRangeModel {
    pub flags: Seq<u8>,
    pub filename: Option<Seq<u8>>,
}

impl View for MapRange {
    type V = MapRangeModel;

    open spec fn view(&self) -> MapRangeModel {
        MapRangeModel {
            flags: self.flags@,
            filename: match self.filename {
                Some(f) => Some(f@),
                None => None,
            },
        }
    }
}

/// The flags of a mapping that is readable, executable, private and not writable.
pub open spec fn read_exec_flags() -> Seq<u8> {
    seq![114u8, 45u8, 120u8, 112u8]
}

/// The directory of the system's libraries, whose symbols are not read.
pub open spec fn system_lib_dir() -> Seq<u8> {
    seq![47u8, 108u8, 105u8, 98u8, 47u8, 120u8, 56u8, 54u8, 95u8, 54u8, 52u8, 45u8, 108u8, 105u8, 110u8, 117u8, 120u8, 45u8, 103u8, 110u8, 117u8, 47u8]
}

/// The other directory of the system's libraries, whose symbols are not read.
pub open spec fn system_usr_lib_dir() -> Seq<u8> {
    seq![47u8, 117u8, 115u8, 114u8] + system_lib_dir()
}

/// Whether `p` is a prefix of `s`.
pub open spec fn is_prefix(p: Seq<u8>, s: Seq<u8>) -> bool {
    p.len() <= s.len() && s.take(p.len() as int) == p
}

/// Whether the symbols of the object file `name` are read: an absolute path outside the
/// system's library directories.
pub open spec fn reads_object(name: Seq<u8>) -> bool {
    &&& is_prefix(seq![47u8], name)
    &&& !is_prefix(system_lib_dir(), name)
    &&& !is_prefix(system_usr_lib_dir(), name)
}

/// The object files whose symbols are read, in the order of `maps`: the files of the
/// executable mappings that [`reads_object`] accepts.
pub open spec fn object_files(maps: Seq<MapRangeModel>) -> Seq<Seq<u8>>
    decreases maps.len(),
{
    if maps.len() == 0 {
        Seq::empty()
    } else {
        let rest = object_files(maps.drop_last());
        let m = maps.last();
        if m.flags == read_exec_flags() && reads_object(m.filename.unwrap()) {
            rest.push(m.filename.unwrap())
        } else {
            rest
        }
    }
}

/// Whether every executable mapping of `maps` maps a file.
pub open spec fn exec_maps_have_files(maps: Seq<MapRangeModel>) -> bool {
    forall|i: int|
        0 <= i < maps.len() && (#[trigger] maps[i]).flags == read_exec_flags() ==> maps[i].filename is Some
}

/// Whether `p` is a prefix of `s`.
pub fn has_prefix(s: &Vec<u8>, p: &[u8]) -> (r: bool)
    ensures
        r == is_prefix(p@, s@),
{
    if p.len() > s.len() {
        return false;
    }
    let mut i: usize = 0;
    while i < p.len()
        invariant
            p@.len() <= s@.len(),
            i <= p@.len(),
            forall|j: int| 0 <= j < i ==> s@[j] == p@[j],
        decreases p.len() - i,
    {
        if s[i] != p[i] {
            assert(s@.take(p@.len() as int)[i as int] != p@[i as int]);
            return false;
        }
        i = i + 1;
    }
    assert(s@.take(p@.len() as int) =~= p@);
    true
}

/// Lists the object files whose symbols are read, in the order of `maps`.
pub fn select_object_files(maps: &Vec<MapRange>) -> (r: Vec<Vec<u8>>)
    requires
        exec_maps_have_files(maps@.map_values(|m: MapRange| m@)),
    ensures
        r@.map_values(|f: Vec<u8>| f@) == object_files(maps@.map_values(|m: MapRange| m@)),
        forall|i: int|
            0 <= i < maps@.len() && (#[trigger] maps@[i]).flags@ == seq![114u8, 45u8, 120u8, 112u8] && readable_object_path(
                maps@[i]@.filename.unwrap(),
            ) ==> r@.map_values(|f: Vec<u8>| f@).contains(maps@[i]@.filename.unwrap()),
{
    let ghost ms = maps@.map_values(|m: MapRange| m@);
    let rxp: [u8; 4] = [114u8, 45u8, 120u8, 112u8];
    let root: [u8; 1] = [47u8];
    let lib: [u8; 22] = [47u8, 108u8, 105u8, 98u8, 47u8, 120u8, 56u8, 54u8, 95u8, 54u8, 52u8, 45u8, 108u8, 105u8, 110u8, 117u8, 120u8, 45u8, 103u8, 110u8, 117u8, 47u8];
    let usr_lib: [u8; 26] = [47u8, 117u8, 115u8, 114u8, 47u8, 108u8, 105u8, 98u8, 47u8, 120u8, 56u8, 54u8, 95u8, 54u8, 52u8, 45u8, 108u8, 105u8, 110u8, 117u8, 120u8, 45u8, 103u8, 110u8, 117u8, 47u8];
    assert(rxp@ == read_exec_flags());
    assert(root@ == seq![47u8]);
    assert(lib@ == system_lib_dir());
    assert(usr_lib@ =~= system_usr_lib_dir());
    let mut r: Vec<Vec<u8>> = Vec::new();
    let mut i: usize = 0;
    while i < maps.len()
        invariant
            i <= maps@.len(),
            ms == maps@.map_values(|m: MapRange| m@),
            exec_maps_have_files(ms),
            rxp@ == read_exec_flags(),
            root@ == seq![47u8],
            lib@ == system_lib_dir(),
            usr_lib@ == system_usr_lib_dir(),
            r@.map_values(|f: Vec<u8>| f@) == object_files(ms.take(i as int)),
        decreases maps.len() - i,
    {
        let ghost before = r@.map_values(|f: Vec<u8>| f@);
        assert(ms.take(i + 1).drop_last() =~= ms.take(i as int));
        assert(ms[i as int] == maps@[i as int]@);
        let m = &maps[i];
        if m.flags.len() == 4 && has_prefix(&m.flags, rxp.as_slice()) {
            assert(m.flags@ =~= read_exec_flags()) by {
                assert(m.flags@.take(4) =~= m.flags@);
            }
            match &m.filename {
                Some(name) => {
                    if has_prefix(name, root.as_slice()) && !has_prefix(name, lib.as_slice())
                        && !has_prefix(name, usr_lib.as_slice()) {
                        r.push(copy_range(name, 0, name.len()));
                        assert(name@.subrange(0, name@.len() as int) =~= name@);
                        assert(r@.map_values(|f: Vec<u8>| f@) =~= before.push(name@));
                    }
                },
                None => {
                    assert(ms[i as int].flags == read_exec_flags());
                },
            }
        } else {
            assert(m.flags@ != read_exec_flags()) by {
                if m.flags@ == read_exec_flags() {
                    assert(m.flags@.take(4) =~= m.flags@);
                }
            }
        }
        i = i + 1;
    }
    assert(ms.take(maps@.len() as int) =~= ms);
    proof {
        law_object_files_complete(ms);
        assert forall|i: int|
            0 <= i < maps@.len() && (#[trigger] maps@[i]).flags@ == seq![114u8, 45u8, 120u8, 112u8] && readable_object_path(
                maps@[i]@.filename.unwrap(),
            ) implies r@.map_values(|f: Vec<u8>| f@).contains(maps@[i]@.filename.unwrap()) by {
            assert(ms[i] == maps@[i]@);
        }
    }
    r
}

/// Every object file whose symbols are read is an absolute path outside the system's
/// library directories, and the file of an executable mapping.
pub proof fn law_object_files_selected(maps: Seq<MapRangeModel>)
    requires
        exec_maps_have_files(maps),
    ensures
        forall|j: int|
            0 <= j < object_files(maps).len() ==> reads_object(#[trigger] object_files(maps)[j]) && exists|i: int|
                0 <= i < maps.len() && maps[i].flags == read_exec_flags() && maps[i].filename == Some(
                    object_files(maps)[j],
                ),
    decreases maps.len(),
{
    if maps.len() > 0 {
        let rest = maps.drop_last();
        assert(exec_maps_have_files(rest)) by {
            assert forall|i: int| 0 <= i < rest.len() && (#[trigger] rest[i]).flags == read_exec_flags() implies rest[i].filename is Some by {
                assert(rest[i] == maps[i]);
            }
        }
        law_object_files_selected(rest);
        let m = maps.last();
        assert(m == maps[maps.len() - 1]);
        assert forall|j: int| 0 <= j < object_files(maps).len() implies reads_object(
            #[trigger] object_files(maps)[j],
        ) && exists|i: int|
            0 <= i < maps.len() && maps[i].flags == read_exec_flags() && maps[i].filename == Some(
                object_files(maps)[j],
            ) by {
            if j < object_files(rest).len() {
                assert(object_files(maps)[j] == object_files(rest)[j]);
                let i = choose|i: int|
                    0 <= i < rest.len() && rest[i].flags == read_exec_flags() && rest[i].filename == Some(
                        object_files(rest)[j],
                    );
                assert(maps[i] == rest[i]);
            } else {
                assert(object_files(maps)[j] == m.filename.unwrap());
                assert(m.filename == Some(m.filename.unwrap()));
            }
        }
    }
}

/// Whether the file `name` of an `r-xp` mapping is one whose symbols are read, spelled out
/// byte by byte: it starts with `/`, and it lies neither under `/lib/x86_64-linux-gnu/` nor
/// under `/usr/lib/x86_64-linux-gnu/`.
pub open spec fn readable_object_path(name: Seq<u8>) -> bool {
    &&& name.len() > 0 && name[0] == 47u8
    &&& !(name.len() >= 22 && name.take(22) == seq![47u8, 108u8, 105u8, 98u8, 47u8, 120u8, 56u8, 54u8, 95u8, 54u8, 52u8, 45u8, 108u8, 105u8, 110u8, 117u8, 120u8, 45u8, 103u8, 110u8, 117u8, 47u8])
    &&& !(name.len() >= 26 && name.take(26) == seq![47u8, 117u8, 115u8, 114u8, 47u8, 108u8, 105u8, 98u8, 47u8, 120u8, 56u8, 54u8, 95u8, 54u8, 52u8, 45u8, 108u8, 105u8, 110u8, 117u8, 120u8, 45u8, 103u8, 110u8, 117u8, 47u8])
}

proof fn lemma_reads_object_spelled(name: Seq<u8>)
    ensures
        reads_object(name) <==> readable_object_path(name),
{
    assert(system_usr_lib_dir() =~= seq![47u8, 117u8, 115u8, 114u8, 47u8, 108u8, 105u8, 98u8, 47u8, 120u8, 56u8, 54u8, 95u8, 54u8, 52u8, 45u8, 108u8, 105u8, 110u8, 117u8, 120u8, 45u8, 103u8, 110u8, 117u8, 47u8]);
    if name.len() > 0 {
        if name[0] == 47u8 {
            assert(name.take(1) =~= seq![47u8]);
        }
        if is_prefix(seq![47u8], name) {
            assert(name.take(1)[0] == 47u8);
        }
    }
}

/// Selection is complete: the file of every `r-xp` mapping that is an absolute path outside
/// `/lib/x86_64-linux-gnu/` and `/usr/lib/x86_64-linux-gnu/` is among the object files read;
/// and it is sound: each object file read is such a file of an `r-xp` mapping.
pub proof fn law_object_files_complete(maps: Seq<MapRangeModel>)
    requires
        exec_maps_have_files(maps),
    ensures
        forall|i: int|
            0 <= i < maps.len() && (#[trigger] maps[i]).flags == seq![114u8, 45u8, 120u8, 112u8] && readable_object_path(
                maps[i].filename.unwrap(),
            ) ==> object_files(maps).contains(maps[i].filename.unwrap()),
        forall|j: int|
            0 <= j < object_files(maps).len() ==> readable_object_path(#[trigger] object_files(maps)[j])
                && exists|i: int|
                0 <= i < maps.len() && maps[i].flags == seq![114u8, 45u8, 120u8, 112u8] && maps[i].filename == Some(
                    object_files(maps)[j],
                ),
    decreases maps.len(),
{
    law_object_files_selected(maps);
    assert forall|j: int| 0 <= j < object_files(maps).len() implies readable_object_path(
        #[trigger] object_files(maps)[j],
    ) by {
        lemma_reads_object_spelled(object_files(maps)[j]);
    }
    if maps.len() > 0 {
        let rest = maps.drop_last();
        assert(exec_maps_have_files(rest)) by {
            assert forall|i: int| 0 <= i < rest.len() && (#[trigger] rest[i]).flags == read_exec_flags() implies rest[i].filename is Some by {
                assert(rest[i] == maps[i]);
            }
        }
        law_object_files_complete(rest);
        let m = maps.last();
        lemma_reads_object_spelled(m.filename.unwrap());
        assert forall|i: int|
            0 <= i < maps.len() && (#[trigger] maps[i]).flags == seq![114u8, 45u8, 120u8, 112u8] && readable_object_path(
                maps[i].filename.unwrap(),
            ) implies object_files(maps).contains(maps[i].filename.unwrap()) by {
            if i < maps.len() - 1 {
                assert(rest[i] == maps[i]);
                let w = choose|w: int| 0 <= w < object_files(rest).len() && object_files(rest)[w] == maps[i].filename.unwrap();
                assert(object_files(maps)[w] == object_files(rest)[w]);
            } else {
                assert(maps[i] == m);
                assert(object_files(maps) == object_files(rest).push(m.filename.unwrap()));
                assert(object_files(maps)[object_files(rest).len() as int] == m.filename.unwrap());
            }
        }
    }
}

/// Whether every executable mapping of `maps` maps a file.
pub fn exec_maps_named(maps: &Vec<MapRange>) -> (r: bool)
    ensures
        r == exec_maps_have_files(maps@.map_values(|m: MapRange| m@)),
{
    let ghost ms = maps@.map_values(|m: MapRange| m@);
    let rxp: [u8; 4] = [114u8, 45u8, 120u8, 112u8];
    assert(rxp@ == read_exec_flags());
    let mut i: usize = 0;
    while i < maps.len()
        invariant
            i <= maps@.len(),
            ms == maps@.map_values(|m: MapRange| m@),
            rxp@ == read_exec_flags(),
            forall|j: int| 0 <= j < i && (#[trigger] ms[j]).flags == read_exec_flags() ==> ms[j].filename is Some,
        decreases maps.len() - i,
    {
        assert(ms[i as int] == maps@[i as int]@);
        let m = &maps[i];
        if m.flags.len() == 4 && has_prefix(&m.flags, rxp.as_slice()) && m.filename.is_none() {
            assert(m.flags@ =~= read_exec_flags()) by {
                assert(m.flags@.take(4) =~= m.flags@);
            }
            return false;
        }
        assert(ms[i as int].flags == read_exec_flags() ==> ms[i as int].filename is Some) by {
            if ms[i as int].flags == read_exec_flags() {
                assert(m.flags@.take(4) =~= m.flags@);
            }
        }
        i = i + 1;
    }
    true
}

} // verus!
