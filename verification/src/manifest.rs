//! The seam, checked where it would be broken: in the package manifests.
//!
//! The engine must never depend on custody. Cargo enforces the *use* of an undeclared package,
//! but nothing stops the dependency from being declared, and once it is, every later claim about
//! the seam becomes quietly untrue with no visible symptom. So the manifest itself is the thing
//! checked, and the rule is a whitelist: one that cannot be satisfied by renaming what it forbids.
//!
//! A hand-written scan rather than a parser of the whole format. It covers the forms manifests
//! use: `[dependencies]` tables, `[dependencies.name]` sub-tables, `name = "1"`,
//! `name = { .. }` and `name.workspace = true` entries, and the `[target.'..'.dependencies]`
//! variants of each. A manifest is read as bytes of UTF-8, and white space is the white space of
//! Unicode.

use vstd::prelude::*;
use vstd::slice::{slice_subrange, slice_to_vec};

verus! {

/// Which dependency table an entry was declared in.
#[derive(Clone, Copy, Debug, PartialEq, Eq, Structural)]
pub enum Table {
    /// `dependencies`.
    Normal,
    /// `build-dependencies`.
    Build,
    /// `dev-dependencies`.
    Dev,
}

/// What is cut off both ends of a text.
#[derive(Clone, Copy, Debug, PartialEq, Eq, Structural)]
pub enum Cut {
    /// White space.
    Space,
    /// Double quotes.
    Quote,
}

/// How many bytes the white-space character encoded at position `at` of `text` takes; none where
/// no white space is encoded there.
///
/// One byte: the tab, the line breaks of ASCII, and the space. Two bytes: next line and the
/// no-break space. Three bytes: the ogham space mark, the spaces from the en quad to the hair
/// space, the line and paragraph separators, the narrow no-break space, the mathematical space and
/// the ideographic space.
pub open spec fn space_at(text: Seq<u8>, at: int) -> nat {
    if at < 0 || at >= text.len() {
        0
    } else if 9 <= text[at] <= 13 || text[at] == 32 {
        1
    } else if at + 1 < text.len() && text[at] == 0xC2 && (text[at + 1] == 0x85 || text[at + 1]
        == 0xA0) {
        2
    } else if at + 2 < text.len() && wide_space(text[at], text[at + 1], text[at + 2]) {
        3
    } else {
        0
    }
}

/// Three bytes that encode white space.
pub open spec fn wide_space(a: u8, b: u8, c: u8) -> bool {
    ||| a == 0xE1 && b == 0x9A && c == 0x80
    ||| a == 0xE2 && b == 0x80 && (0x80 <= c <= 0x8A || c == 0xA8 || c == 0xA9 || c == 0xAF)
    ||| a == 0xE2 && b == 0x81 && c == 0x9F
    ||| a == 0xE3 && b == 0x80 && c == 0x80
}

fn white_at(text: &[u8], at: usize) -> (r: usize)
    ensures
        r == space_at(text@, at as int),
        at <= text@.len() ==> r <= text@.len() - at,
{
    let n: usize = text.len();
    if at >= n {
        return 0;
    }
    let left: usize = n - at;
    let a: u8 = text[at];
    if (9 <= a && a <= 13) || a == 32 {
        return 1;
    }
    if left < 2 {
        return 0;
    }
    let b: u8 = text[at + 1];
    if a == 0xC2 && (b == 0x85 || b == 0xA0) {
        return 2;
    }
    if left < 3 {
        return 0;
    }
    let c: u8 = text[at + 2];
    let general = a == 0xE2 && b == 0x80 && ((0x80 <= c && c <= 0x8A) || c == 0xA8 || c == 0xA9
        || c == 0xAF);
    if general || (a == 0xE1 && b == 0x9A && c == 0x80) || (a == 0xE2 && b == 0x81 && c == 0x9F)
        || (a == 0xE3 && b == 0x80 && c == 0x80) {
        return 3;
    }
    0
}

impl Cut {
    /// How many bytes are cut of the character encoded at position `at` of `text`: all of them,
    /// or none.
    pub open spec fn takes(self, text: Seq<u8>, at: int) -> nat {
        match self {
            Cut::Space => space_at(text, at),
            Cut::Quote => if 0 <= at < text.len() && text[at] == 34 {
                1
            } else {
                0
            },
        }
    }

    /// How many bytes are cut of the character `text` ends with.
    pub open spec fn takes_last(self, text: Seq<u8>) -> nat {
        let n = text.len() as int;
        if self.takes(text, n - 1) == 1 {
            1
        } else if self.takes(text, n - 2) == 2 {
            2
        } else if self.takes(text, n - 3) == 3 {
            3
        } else {
            0
        }
    }

    fn cuts(self, text: &[u8], at: usize) -> (r: usize)
        ensures
            r == self.takes(text@, at as int),
            at <= text@.len() ==> r <= text@.len() - at,
    {
        match self {
            Cut::Space => white_at(text, at),
            Cut::Quote => if at < text.len() && text[at] == 34 {
                1
            } else {
                0
            },
        }
    }

    fn cuts_last(self, text: &[u8]) -> (r: usize)
        ensures
            r == self.takes_last(text@),
            r <= text@.len(),
    {
        let n: usize = text.len();
        if n >= 1 && self.cuts(text, n - 1) == 1 {
            1
        } else if n >= 2 && self.cuts(text, n - 2) == 2 {
            2
        } else if n >= 3 && self.cuts(text, n - 3) == 3 {
            3
        } else {
            0
        }
    }
}

/// `text` without what `cut` takes from its front.
pub open spec fn front_cut(text: Seq<u8>, cut: Cut) -> Seq<u8>
    decreases text.len(),
{
    if 0 < cut.takes(text, 0) <= text.len() {
        front_cut(text.skip(cut.takes(text, 0) as int), cut)
    } else {
        text
    }
}

/// `text` without what `cut` takes from its back.
pub open spec fn back_cut(text: Seq<u8>, cut: Cut) -> Seq<u8>
    decreases text.len(),
{
    if 0 < cut.takes_last(text) <= text.len() {
        back_cut(text.take(text.len() - cut.takes_last(text)), cut)
    } else {
        text
    }
}

/// `text` without what `cut` takes from its ends.
pub open spec fn trimmed(text: Seq<u8>, cut: Cut) -> Seq<u8> {
    back_cut(front_cut(text, cut), cut)
}

/// Where `byte` first occurs in `text`, or its length.
pub open spec fn first_at(text: Seq<u8>, byte: u8) -> nat
    decreases text.len(),
{
    if text.len() == 0 || text[0] == byte {
        0
    } else {
        1 + first_at(text.drop_first(), byte)
    }
}

/// What follows the last `byte` in `text`: all of it where there is none.
pub open spec fn tail_after(text: Seq<u8>, byte: u8) -> Seq<u8>
    decreases text.len(),
{
    if first_at(text, byte) < text.len() {
        tail_after(text.skip((first_at(text, byte) + 1) as int), byte)
    } else {
        text
    }
}

/// Where the comment starts in a line: at the first `#` outside a quoted string, or at its end.
pub open spec fn comment_start(line: Seq<u8>, from: int, quoted: bool) -> int
    decreases line.len() - from,
{
    if from >= line.len() {
        line.len() as int
    } else if line[from] == 34 || line[from] == 39 {
        comment_start(line, from + 1, !quoted)
    } else if line[from] == 35 && !quoted {
        from
    } else {
        comment_start(line, from + 1, quoted)
    }
}

/// What a line says: without its comment, without white space around it.
pub open spec fn said(line: Seq<u8>) -> Seq<u8> {
    trimmed(line.take(comment_start(line, 0, false)), Cut::Space)
}

/// `dependencies`.
pub open spec fn normal_word() -> Seq<u8> {
    seq![100u8, 101, 112, 101, 110, 100, 101, 110, 99, 105, 101, 115]
}

/// `build-`.
pub open spec fn build_prefix() -> Seq<u8> {
    seq![98u8, 117, 105, 108, 100, 45]
}

/// `dev-`.
pub open spec fn dev_prefix() -> Seq<u8> {
    seq![100u8, 101, 118, 45]
}

/// The dependency table a word names, if it names one.
pub open spec fn table_named(word: Seq<u8>) -> Option<Table> {
    if word == normal_word() {
        Some(Table::Normal)
    } else if word == build_prefix() + normal_word() {
        Some(Table::Build)
    } else if word == dev_prefix() + normal_word() {
        Some(Table::Dev)
    } else {
        None
    }
}

/// Whether a line opens a table.
pub open spec fn is_header(line: Seq<u8>) -> bool {
    line.len() >= 2 && line[0] == 91 && line.last() == 93
}

/// What a table is called.
pub open spec fn header_of(line: Seq<u8>) -> Seq<u8> {
    trimmed(line.subrange(1, line.len() - 1), Cut::Space)
}

/// The dependency a header of the shape `dependencies.name` declares, if it has that shape.
pub open spec fn sub_table(header: Seq<u8>) -> Option<(Table, Seq<u8>)> {
    let name = tail_after(header, 46);
    let at = header.len() - name.len() - 1;
    if at < 0 {
        None
    } else {
        match table_named(tail_after(header.take(at), 46)) {
            Some(table) => Some((table, trimmed(trimmed(name, Cut::Space), Cut::Quote))),
            None => None,
        }
    }
}

/// The table a line is followed by.
pub open spec fn table_after(line: Seq<u8>, table: Option<Table>) -> Option<Table> {
    if is_header(line) {
        table_named(tail_after(header_of(line), 46))
    } else {
        table
    }
}

/// The name an entry of a dependency table declares: what precedes the first `.` of its key.
pub open spec fn entry_name(line: Seq<u8>) -> Seq<u8> {
    let key = trimmed(trimmed(line.take(first_at(line, 61) as int), Cut::Space), Cut::Quote);
    trimmed(key.take(first_at(key, 46) as int), Cut::Space)
}

/// The dependency a line declares in `table`, if it declares one.
pub open spec fn declared_by(line: Seq<u8>, table: Option<Table>) -> Option<(Table, Seq<u8>)> {
    if is_header(line) {
        if table_named(tail_after(header_of(line), 46)) is Some {
            None
        } else {
            sub_table(header_of(line))
        }
    } else if table is Some && first_at(line, 61) < line.len() && entry_name(line).len() > 0 {
        Some((table->0, entry_name(line)))
    } else {
        None
    }
}

/// The dependencies `text` declares, the first of its lines standing in `table`.
pub open spec fn declared(text: Seq<u8>, table: Option<Table>) -> Seq<(Table, Seq<u8>)>
    decreases text.len(),
{
    if text.len() == 0 {
        Seq::empty()
    } else {
        let n = first_at(text, 10);
        let line = said(text.take(n as int));
        let rest = if n < text.len() {
            text.skip((n + 1) as int)
        } else {
            Seq::empty()
        };
        let after = declared(rest, table_after(line, table));
        match declared_by(line, table) {
            Some(found) => seq![found] + after,
            None => after,
        }
    }
}

proof fn first_at_is(text: Seq<u8>, byte: u8)
    ensures
        first_at(text, byte) <= text.len(),
        first_at(text, byte) < text.len() ==> text[first_at(text, byte) as int] == byte,
        forall|k: int| 0 <= k < first_at(text, byte) ==> text[k] != byte,
    decreases text.len(),
{
    if text.len() > 0 && text[0] != byte {
        let rest = text.drop_first();
        first_at_is(rest, byte);
        assert forall|k: int| 0 <= k < first_at(text, byte) implies text[k] != byte by {
            if k > 0 {
                assert(rest[k - 1] == text[k]);
            }
        }
    }
}

proof fn first_at_unique(text: Seq<u8>, byte: u8, n: nat)
    requires
        n <= text.len(),
        n < text.len() ==> text[n as int] == byte,
        forall|k: int| 0 <= k < n ==> text[k] != byte,
    ensures
        first_at(text, byte) == n,
{
    first_at_is(text, byte);
}

fn find(text: &[u8], byte: u8) -> (r: usize)
    ensures
        r == first_at(text@, byte),
        r <= text@.len(),
{
    let n: usize = text.len();
    let mut k: usize = 0;
    while k < n && text[k] != byte
        invariant
            k <= n == text@.len(),
            forall|j: int| 0 <= j < k ==> text@[j] != byte,
        decreases n - k,
    {
        k += 1;
    }
    proof {
        first_at_unique(text@, byte, k as nat);
    }
    k
}

fn trim<'a>(text: &'a [u8], cut: Cut) -> (r: &'a [u8])
    ensures
        r@ == trimmed(text@, cut),
{
    let mut rest: &'a [u8] = text;
    let mut width: usize = cut.cuts(rest, 0);
    while width > 0
        invariant
            width == cut.takes(rest@, 0),
            width <= rest@.len(),
            front_cut(text@, cut) == front_cut(rest@, cut),
        decreases rest@.len(),
    {
        let n: usize = rest.len();
        proof {
            assert(rest@.subrange(width as int, n as int) =~= rest@.skip(width as int));
        }
        rest = slice_subrange(rest, width, n);
        width = cut.cuts(rest, 0);
    }
    let ghost kept = rest@;
    width = cut.cuts_last(rest);
    while width > 0
        invariant
            width == cut.takes_last(rest@),
            width <= rest@.len(),
            back_cut(kept, cut) == back_cut(rest@, cut),
        decreases rest@.len(),
    {
        let to: usize = rest.len() - width;
        proof {
            assert(rest@.subrange(0, to as int) =~= rest@.take(to as int));
        }
        rest = slice_subrange(rest, 0, to);
        width = cut.cuts_last(rest);
    }
    rest
}

fn tail<'a>(text: &'a [u8], byte: u8) -> (r: &'a [u8])
    ensures
        r@ == tail_after(text@, byte),
        r@.len() <= text@.len(),
        r@ == text@.skip(text@.len() - r@.len()),
        r@.len() < text@.len() ==> text@[text@.len() - r@.len() - 1] == byte,
{
    let mut from: usize = 0;
    let n: usize = text.len();
    proof {
        assert(text@.skip(0) =~= text@);
    }
    loop
        invariant
            from <= n == text@.len(),
            tail_after(text@, byte) == tail_after(text@.skip(from as int), byte),
            from > 0 ==> text@[from - 1] == byte,
        decreases n - from,
    {
        let rest: &[u8] = slice_subrange(text, from, n);
        proof {
            assert(rest@ =~= text@.skip(from as int));
            first_at_is(rest@, byte);
        }
        let at: usize = find(rest, byte);
        if at >= rest.len() {
            return rest;
        }
        proof {
            assert(rest@.skip(at + 1) =~= text@.skip(from + at + 1));
        }
        from = from + at + 1;
    }
}

fn same(a: &[u8], b: &[u8]) -> (r: bool)
    ensures
        r == (a@ == b@),
{
    if a.len() != b.len() {
        return false;
    }
    let n: usize = a.len();
    let mut k: usize = 0;
    while k < n
        invariant
            k <= n == a@.len() == b@.len(),
            forall|j: int| 0 <= j < k ==> a@[j] == b@[j],
        decreases n - k,
    {
        if a[k] != b[k] {
            return false;
        }
        k += 1;
    }
    proof {
        assert(a@ =~= b@);
    }
    true
}

fn uncommented<'a>(line: &'a [u8]) -> (r: &'a [u8])
    ensures
        r@ == line@.take(comment_start(line@, 0, false)),
{
    let n: usize = line.len();
    let mut k: usize = 0;
    let mut quoted = false;
    while k < n
        invariant
            k <= n == line@.len(),
            comment_start(line@, 0, false) == comment_start(line@, k as int, quoted),
        decreases n - k,
    {
        let byte = line[k];
        if byte == 34 || byte == 39 {
            quoted = !quoted;
        } else if byte == 35 && !quoted {
            proof {
                assert(line@.subrange(0, k as int) =~= line@.take(k as int));
            }
            return slice_subrange(line, 0, k);
        }
        k += 1;
    }
    proof {
        assert(line@.take(n as int) =~= line@);
    }
    line
}

fn name_table(word: &[u8]) -> (r: Option<Table>)
    ensures
        r == table_named(word@),
{
    let normal: [u8; 12] = [100, 101, 112, 101, 110, 100, 101, 110, 99, 105, 101, 115];
    let n: usize = word.len();
    proof {
        assert(normal@ =~= normal_word());
    }
    if same(word, vstd::array::array_as_slice(&normal)) {
        return Some(Table::Normal);
    }
    if n == 18 && word[0] == 98 && word[1] == 117 && word[2] == 105 && word[3] == 108 && word[4]
        == 100 && word[5] == 45 && same(
        slice_subrange(word, 6, n),
        vstd::array::array_as_slice(&normal),
    ) {
        proof {
            assert(word@ =~= build_prefix() + normal_word()) by {
                assert(word@.subrange(6, 18) == normal_word());
                assert forall|k: int| 6 <= k < 18 implies word@[k] == normal_word()[k - 6] by {
                    assert(word@.subrange(6, 18)[k - 6] == word@[k]);
                }
            }
        }
        return Some(Table::Build);
    }
    proof {
        if word@ == build_prefix() + normal_word() {
            assert(word@.subrange(6, 18) =~= normal_word());
            assert(false);
        }
    }
    if n == 16 && word[0] == 100 && word[1] == 101 && word[2] == 118 && word[3] == 45 && same(
        slice_subrange(word, 4, n),
        vstd::array::array_as_slice(&normal),
    ) {
        proof {
            assert(word@ =~= dev_prefix() + normal_word()) by {
                assert(word@.subrange(4, 16) == normal_word());
                assert forall|k: int| 4 <= k < 16 implies word@[k] == normal_word()[k - 4] by {
                    assert(word@.subrange(4, 16)[k - 4] == word@[k]);
                }
            }
        }
        return Some(Table::Dev);
    }
    proof {
        if word@ == dev_prefix() + normal_word() {
            assert(word@.subrange(4, 16) =~= normal_word());
            assert(false);
        }
    }
    None
}

/// `found` with its names as sequences.
pub open spec fn found_view(found: Seq<(Table, Vec<u8>)>) -> Seq<(Table, Seq<u8>)> {
    found.map_values(|entry: (Table, Vec<u8>)| (entry.0, entry.1@))
}

fn split_header(header: &[u8]) -> (r: Option<(Table, Vec<u8>)>)
    ensures
        match r {
            Some(entry) => sub_table(header@) == Some((entry.0, entry.1@)),
            None => sub_table(header@) is None,
        },
{
    let name: &[u8] = tail(header, 46);
    if name.len() >= header.len() {
        return None;
    }
    let at: usize = header.len() - name.len() - 1;
    let prefix: &[u8] = slice_subrange(header, 0, at);
    proof {
        assert(prefix@ =~= header@.take(at as int));
    }
    match name_table(tail(prefix, 46)) {
        Some(table) => Some((table, slice_to_vec(trim(trim(name, Cut::Space), Cut::Quote)))),
        None => None,
    }
}

/// The dependency a line declares, and the table it is followed by.
fn read_line(line: &[u8], table: Option<Table>) -> (r: (Option<Table>, Option<(Table, Vec<u8>)>))
    ensures
        r.0 == table_after(line@, table),
        match r.1 {
            Some(entry) => declared_by(line@, table) == Some((entry.0, entry.1@)),
            None => declared_by(line@, table) is None,
        },
{
    let n: usize = line.len();
    if n >= 2 && line[0] == 91 && line[n - 1] == 93 {
        let header: &[u8] = trim(slice_subrange(line, 1, n - 1), Cut::Space);
        return match name_table(tail(header, 46)) {
            Some(opened) => (Some(opened), None),
            None => (None, split_header(header)),
        };
    }
    match table {
        Some(kind) => {
            let at: usize = find(line, 61);
            if at < n {
                let left: &[u8] = slice_subrange(line, 0, at);
                proof {
                    assert(left@ =~= line@.take(at as int));
                }
                let key: &[u8] = trim(trim(left, Cut::Space), Cut::Quote);
                let dot: usize = find(key, 46);
                let first: &[u8] = slice_subrange(key, 0, dot);
                proof {
                    assert(first@ =~= key@.take(dot as int));
                }
                let name: &[u8] = trim(first, Cut::Space);
                if name.len() > 0 {
                    return (table, Some((kind, slice_to_vec(name))));
                }
            }
            (table, None)
        },
        None => (table, None),
    }
}

/// Every dependency name a manifest declares, with the table it came from, in order.
pub fn declared_dependencies(manifest: &[u8]) -> (r: Vec<(Table, Vec<u8>)>)
    ensures
        found_view(r@) == declared(manifest@, None),
{
    let mut found: Vec<(Table, Vec<u8>)> = Vec::new();
    let mut table: Option<Table> = None;
    let n: usize = manifest.len();
    let mut from: usize = 0;
    proof {
        assert(manifest@.skip(0) =~= manifest@);
        assert(found_view(found@) + declared(manifest@, None) =~= declared(manifest@, None));
    }
    while from < n
        invariant
            from <= n == manifest@.len(),
            found_view(found@) + declared(manifest@.skip(from as int), table) == declared(
                manifest@,
                None,
            ),
        decreases n - from,
    {
        let rest: &[u8] = slice_subrange(manifest, from, n);
        proof {
            assert(rest@ =~= manifest@.skip(from as int));
        }
        let at: usize = find(rest, 10);
        let raw: &[u8] = slice_subrange(rest, 0, at);
        proof {
            assert(raw@ =~= rest@.take(at as int));
        }
        let line: &[u8] = trim(uncommented(raw), Cut::Space);
        let ghost before = found_view(found@);
        let ghost stood = table;
        let (next, entry) = read_line(line, table);
        table = next;
        let next_from: usize = if at < rest.len() {
            from + at + 1
        } else {
            n
        };
        let ghost after = declared(manifest@.skip(next_from as int), table);
        proof {
            if at < rest@.len() {
                assert(rest@.skip(at + 1) =~= manifest@.skip(next_from as int));
            } else {
                assert(manifest@.skip(next_from as int) =~= Seq::<u8>::empty());
            }
        }
        match entry {
            Some(named) => {
                proof {
                    let item = (named.0, named.1@);
                    assert(declared(rest@, stood) == seq![item] + after);
                    assert(before + (seq![item] + after) =~= before.push(item) + after);
                }
                found.push(named);
                proof {
                    assert(found_view(found@) =~= before.push((named.0, named.1@)));
                }
            },
            None => {},
        }
        from = next_from;
    }
    proof {
        assert(manifest@.skip(from as int) =~= Seq::<u8>::empty());
        assert(found_view(found@) + Seq::<(Table, Seq<u8>)>::empty() =~= found_view(found@));
    }
    found
}

/// Every name in `found` is one of `permitted`.
pub open spec fn within(found: Seq<(Table, Seq<u8>)>, permitted: Seq<Seq<u8>>) -> bool {
    forall|k: int| 0 <= k < found.len() ==> permitted.contains((#[trigger] found[k]).1)
}

/// The permitted names as sequences.
pub open spec fn names_view(permitted: Seq<&[u8]>) -> Seq<Seq<u8>> {
    permitted.map_values(|name: &[u8]| name@)
}

/// Whether a manifest declares nothing but what is permitted.
pub fn declares_only(manifest: &[u8], permitted: &[&[u8]]) -> (r: bool)
    ensures
        r == within(declared(manifest@, None), names_view(permitted@)),
{
    let found = declared_dependencies(manifest);
    let ghost names = names_view(permitted@);
    let ghost all = declared(manifest@, None);
    let mut k: usize = 0;
    while k < found.len()
        invariant
            k <= found@.len(),
            found_view(found@) == all,
            names == names_view(permitted@),
            all == declared(manifest@, None),
            forall|j: int| 0 <= j < k ==> names.contains((#[trigger] all[j]).1),
        decreases found@.len() - k,
    {
        let mut known = false;
        let mut i: usize = 0;
        let count: usize = permitted.len();
        while i < count
            invariant
                i <= count == permitted@.len(),
                k < found@.len(),
                names == names_view(permitted@),
                known ==> names.contains(found@[k as int].1@),
                !known ==> forall|j: int| 0 <= j < i ==> #[trigger] names[j] != found@[k as int].1@,
            decreases count - i,
        {
            if same(permitted[i], found[k].1.as_slice()) {
                known = true;
                proof {
                    assert(names[i as int] == found@[k as int].1@);
                }
            }
            i += 1;
        }
        proof {
            assert(all[k as int].1 == found@[k as int].1@);
        }
        if !known {
            return false;
        }
        k += 1;
    }
    true
}

/// Why the engine's package may not be built.
#[derive(Debug)]
pub struct SeamViolation {
    /// The table the dependency is declared in.
    pub table: Table,
    /// Its name.
    pub name: Vec<u8>,
}

/// `proptest`.
pub open spec fn allowed_dev() -> Seq<u8> {
    seq![112u8, 114, 111, 112, 116, 101, 115, 116]
}

/// Whether the engine's package may declare this dependency: nothing but the one test helper.
pub open spec fn engine_may_declare(entry: (Table, Seq<u8>)) -> bool {
    entry.0 is Dev && entry.1 == allowed_dev()
}

/// Check that the engine's package depends on nothing: no dependency at all, and in tests on
/// nothing but the one test helper. A test is no exemption: a cycle through a test dependency is
/// the one direction the build tool does not refuse on its own.
pub fn check_engine_manifest(manifest: &[u8]) -> (r: Result<(), SeamViolation>)
    ensures
        match r {
            Ok(()) => forall|k: int|
                0 <= k < declared(manifest@, None).len() ==> engine_may_declare(
                    #[trigger] declared(manifest@, None)[k],
                ),
            Err(violation) => exists|k: int|
                {
                    &&& 0 <= k < declared(manifest@, None).len()
                    &&& #[trigger] declared(manifest@, None)[k] == (
                        violation.table,
                        violation.name@,
                    )
                    &&& !engine_may_declare(declared(manifest@, None)[k])
                    &&& forall|j: int|
                        0 <= j < k ==> engine_may_declare(#[trigger] declared(manifest@, None)[j])
                },
        },
{
    let helper: [u8; 8] = [112, 114, 111, 112, 116, 101, 115, 116];
    proof {
        assert(helper@ =~= allowed_dev());
    }
    let found = declared_dependencies(manifest);
    let ghost all = declared(manifest@, None);
    let mut k: usize = 0;
    while k < found.len()
        invariant
            k <= found@.len(),
            found_view(found@) == all,
            all == declared(manifest@, None),
            helper@ == allowed_dev(),
            forall|j: int| 0 <= j < k ==> engine_may_declare(#[trigger] all[j]),
        decreases found@.len() - k,
    {
        let table = found[k].0;
        let allowed = matches!(table, Table::Dev) && same(
            found[k].1.as_slice(),
            vstd::array::array_as_slice(&helper),
        );
        proof {
            assert(all[k as int] == (found@[k as int].0, found@[k as int].1@));
        }
        if !allowed {
            let name = slice_to_vec(found[k].1.as_slice());
            proof {
                assert(declared(manifest@, None)[k as int] == (table, name@));
            }
            return Err(SeamViolation { table, name });
        }
        k += 1;
    }
    Ok(())
}

/// `bytes` spells `word`.
pub open spec fn writes(bytes: Seq<u8>, word: Seq<char>) -> bool {
    &&& bytes.len() == word.len()
    &&& forall|k: int| 0 <= k < word.len() ==> #[trigger] bytes[k] as u32 == word[k] as u32
}

/// **The tables are told by their names, and the one test helper by its own.**
pub proof fn tables_are_told_by_their_names()
    ensures
        writes(normal_word(), "dependencies"@),
        writes(build_prefix() + normal_word(), "build-dependencies"@),
        writes(dev_prefix() + normal_word(), "dev-dependencies"@),
        writes(allowed_dev(), "proptest"@),
        table_named(normal_word()) == Some(Table::Normal),
        table_named(build_prefix() + normal_word()) == Some(Table::Build),
        table_named(dev_prefix() + normal_word()) == Some(Table::Dev),
{
    reveal_strlit("dependencies");
    reveal_strlit("build-dependencies");
    reveal_strlit("dev-dependencies");
    reveal_strlit("proptest");
    assert((build_prefix() + normal_word()).len() == 18);
    assert((dev_prefix() + normal_word()).len() == 16);
}

/// A byte that package names are made of: a letter, a digit, `-` or `_`.
pub open spec fn plain(byte: u8) -> bool {
    ||| 48 <= byte <= 57
    ||| 65 <= byte <= 90
    ||| 97 <= byte <= 122
    ||| byte == 45
    ||| byte == 95
}

/// Nothing is cut off a plain name.
proof fn plain_names_are_whole(name: Seq<u8>, cut: Cut)
    requires
        name.len() > 0,
        forall|k: int| 0 <= k < name.len() ==> plain(#[trigger] name[k]),
    ensures
        trimmed(name, cut) == name,
{
    let n = name.len() as int;
    assert(plain(name[0]));
    assert(plain(name[n - 1]));
    assert(front_cut(name, cut) == name);
    if n >= 2 {
        assert(plain(name[n - 2]));
    }
    if n >= 3 {
        assert(plain(name[n - 3]));
    }
    assert(cut.takes_last(name) == 0);
}

/// **A line `name = value` in a table of dependencies declares that name in that table**, and outside
/// one it declares nothing; and it opens no other table.
pub proof fn an_entry_declares_its_name(
    name: Seq<u8>,
    value: Seq<u8>,
    table: Option<Table>,
)
    requires
        name.len() > 0,
        forall|k: int| 0 <= k < name.len() ==> plain(#[trigger] name[k]),
    ensures
        ({
            let line = name + seq![32u8, 61u8] + value;
            &&& table_after(line, table) == table
            &&& declared_by(line, table) == (match table {
                Some(within) => Some((within, name)),
                None => None,
            })
        }),
{
    let line = name + seq![32u8, 61u8] + value;
    let n = name.len();
    assert(line[0] == name[0]);
    assert(plain(name[0]));
    assert(!is_header(line));
    assert(line[n as int] == 32);
    assert(line[n as int + 1] == 61);
    assert forall|k: int| 0 <= k < n + 1 implies line[k] != 61 by {
        if k < n {
            assert(plain(name[k]));
        }
    }
    first_at_unique(line, 61, n + 1);
    let key = line.take(n as int + 1);
    assert(key =~= name.push(32));
    assert(key[0] == name[0]);
    assert(front_cut(key, Cut::Space) == key);
    assert(space_at(key, n as int) == 1);
    assert(key.take(n as int) =~= name);
    plain_names_are_whole(name, Cut::Space);
    plain_names_are_whole(name, Cut::Quote);
    assert(back_cut(name, Cut::Space) == name) by {
        assert(front_cut(name, Cut::Space) == name);
    }
    assert(trimmed(key, Cut::Space) == name);
    assert forall|k: int| 0 <= k < n implies name[k] != 46 by {
        assert(plain(name[k]));
    }
    first_at_unique(name, 46, n);
    assert(name.take(n as int) =~= name);
    assert(entry_name(line) == name);
}

} // verus!
