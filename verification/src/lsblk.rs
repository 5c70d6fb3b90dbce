//! The `KEY="value"` pairs that `lsblk --pairs` prints, and the walk up a
//! device's hierarchy built on them.

use vstd::prelude::*;
use crate::text::{chars_of, find_char_from, index_of_from, lines, lines_of, str_eq, string_of};

verus! {

/// A character that a key may hold: `A`-`Z`, `-` or `_`.
pub open spec fn is_key_char(c: char) -> bool {
    ('A' <= c <= 'Z') || c == '-' || c == '_'
}

/// The end of the run of key characters that starts at `i`.
pub open spec fn key_run_end(s: Seq<char>, i: int) -> int
    decreases s.len() - i,
{
    if i < s.len() && is_key_char(s[i]) {
        key_run_end(s, i + 1)
    } else {
        i
    }
}

/// Where a pair `KEY="value"` that starts at `i` ends its key and its value:
/// a non-empty run of key characters, then `="`, then a non-empty run
/// without `"`, then `"`.
pub open spec fn pair_at(s: Seq<char>, i: int) -> Option<(int, int)> {
    let k = key_run_end(s, i);
    if k > i && k + 1 < s.len() && s[k] == '=' && s[k + 1] == '"' {
        let q = index_of_from(s, k + 2, '"');
        if q > k + 2 && q < s.len() {
            Some((k, q))
        } else {
            None
        }
    } else {
        None
    }
}

/// The pairs of `s` from index `i` on, left to right: at each position the
/// pair that starts there, if any, is taken and the scan goes on after its
/// closing quote; otherwise the scan moves one character on.
pub open spec fn scan_pairs(s: Seq<char>, i: int) -> Seq<(Seq<char>, Seq<char>)>
    decreases s.len() - i,
{
    if i >= s.len() {
        seq![]
    } else {
        match pair_at(s, i) {
            Some((k, q)) => seq![(s.subrange(i, k), s.subrange(k + 2, q))] + scan_pairs(s, q + 1),
            None => scan_pairs(s, i + 1),
        }
    }
}

/// The value of the last pair with key `key`.
pub open spec fn lookup(pairs: Seq<(Seq<char>, Seq<char>)>, key: Seq<char>) -> Option<Seq<char>>
    decreases pairs.len(),
{
    if pairs.len() == 0 {
        None
    } else if pairs.last().0 == key {
        Some(pairs.last().1)
    } else {
        lookup(pairs.drop_last(), key)
    }
}

/// The fields of one line of `lsblk --pairs` output, in the order printed.
pub struct LsblkFields {
    pub pairs: Vec<(String, String)>,
}

impl View for LsblkFields {
    type V = Seq<(Seq<char>, Seq<char>)>;

    open spec fn view(&self) -> Seq<(Seq<char>, Seq<char>)> {
        self.pairs@.map_values(|p: (String, String)| (p.0@, p.1@))
    }
}

impl LsblkFields {
    /// The value given for `key`; where it is given twice, the later one.
    pub fn get(&self, key: &str) -> (r: Option<&String>)
        ensures
            r matches Some(v) ==> lookup(self@, key@) == Some(v@),
            r is None ==> lookup(self@, key@) is None,
    {
        let mut i = self.pairs.len();
        assert(self@.take(i as int) =~= self@);
        while i > 0
            invariant
                i <= self.pairs.len(),
                lookup(self@, key@) == lookup(self@.take(i as int), key@),
            decreases i,
        {
            let ghost t = self@.take(i as int);
            assert(t.drop_last() =~= self@.take(i - 1));
            if str_eq(self.pairs[i - 1].0.as_str(), key) {
                return Some(&self.pairs[i - 1].1);
            }
            i = i - 1;
        }
        None
    }
}

fn key_run_end_exec(chars: &Vec<char>, from: usize) -> (r: usize)
    requires
        from <= chars.len(),
    ensures
        r as int == key_run_end(chars@, from as int),
        from <= r <= chars.len(),
{
    let mut j = from;
    while j < chars.len() && (('A' <= chars[j] && chars[j] <= 'Z') || chars[j] == '-' || chars[j]
        == '_')
        invariant
            from <= j <= chars.len(),
            key_run_end(chars@, from as int) == key_run_end(chars@, j as int),
        decreases chars.len() - j,
    {
        j = j + 1;
    }
    j
}

fn pair_at_exec(chars: &Vec<char>, i: usize) -> (r: Option<(usize, usize)>)
    requires
        i <= chars.len(),
    ensures
        r matches Some((k, q)) ==> pair_at(chars@, i as int) == Some((k as int, q as int)),
        r is None ==> pair_at(chars@, i as int) is None,
{
    let k = key_run_end_exec(chars, i);
    if k > i && k < chars.len() && k + 1 < chars.len() && chars[k] == '=' && chars[k + 1] == '"' {
        let q = find_char_from(chars, k + 2, '"');
        if q > k + 2 && q < chars.len() {
            Some((k, q))
        } else {
            None
        }
    } else {
        None
    }
}

/// Splits one line of `lsblk --pairs` output into its `KEY="value"` pairs.
pub fn split_lsblk_line(line: &str) -> (r: LsblkFields)
    ensures
        r@ == scan_pairs(line@, 0),
{
    let chars = chars_of(line);
    let mut pairs: Vec<(String, String)> = Vec::new();
    let mut i: usize = 0;
    while i < chars.len()
        invariant
            i <= chars.len(),
            chars@ == line@,
            scan_pairs(line@, 0) == pairs@.map_values(|p: (String, String)| (p.0@, p.1@))
                + scan_pairs(line@, i as int),
        decreases chars.len() - i,
    {
        let ghost before = pairs@.map_values(|p: (String, String)| (p.0@, p.1@));
        match pair_at_exec(&chars, i) {
            Some((k, q)) => {
                let key = string_of(&chars, i, k);
                let value = string_of(&chars, k + 2, q);
                pairs.push((key, value));
                proof {
                    let after = pairs@.map_values(|p: (String, String)| (p.0@, p.1@));
                    assert(after =~= before.push((key@, value@)));
                    assert(scan_pairs(line@, i as int) == seq![(key@, value@)] + scan_pairs(line@, q + 1));
                    assert(before + (seq![(key@, value@)] + scan_pairs(line@, q + 1)) =~= after + scan_pairs(line@, q + 1));
                }
                i = q + 1;
            },
            None => {
                i = i + 1;
            },
        }
    }
    assert(pairs@.map_values(|p: (String, String)| (p.0@, p.1@)) + scan_pairs(line@, i as int)
        =~= pairs@.map_values(|p: (String, String)| (p.0@, p.1@)));
    LsblkFields { pairs }
}


/// The field that a line of the hierarchy lacked.
#[derive(Debug, Clone, Copy, PartialEq, Eq, Structural)]
pub enum MissingField {
    Name,
    Type,
}

/// A device in the hierarchy of `device` was printed without a field.
#[derive(Debug, PartialEq, Eq)]
pub struct HierarchyError {
    pub device: String,
    pub missing: MissingField,
}

impl HierarchyError {
    /// `device in hierarchy of <device> missing NAME` (or `TYPE`).
    pub fn message(&self) -> (r: String)
        ensures
            r@ == "device in hierarchy of "@ + self.device@ + match self.missing {
                MissingField::Name => " missing NAME"@,
                MissingField::Type => " missing TYPE"@,
            },
    {
        let mut m = "device in hierarchy of ".to_owned();
        m.append(self.device.as_str());
        match self.missing {
            MissingField::Name => m.append(" missing NAME"),
            MissingField::Type => m.append(" missing TYPE"),
        }
        m
    }
}

pub open spec fn name_key() -> Seq<char> {
    seq!['N', 'A', 'M', 'E']
}

pub open spec fn type_key() -> Seq<char> {
    seq!['T', 'Y', 'P', 'E']
}

/// A kind of device that can hold partitions and is listed for itself.
pub open spec fn is_listed_kind(kind: Seq<char>) -> bool {
    kind == seq!['d', 'i', 's', 'k'] || kind == seq!['l', 'o', 'o', 'p']
}

/// A multipath device: listed, and the walk stops there.
pub open spec fn is_mpath_kind(kind: Seq<char>) -> bool {
    kind == seq!['m', 'p', 'a', 't', 'h']
}

/// The parents named by `ls[k..]`: each line must give `NAME` and `TYPE`;
/// `disk` and `loop` devices are kept, an `mpath` device is kept and ends the
/// walk, other kinds are passed over.
pub open spec fn parents_from(ls: Seq<Seq<char>>, k: int) -> Result<Seq<Seq<char>>, MissingField>
    decreases ls.len() - k,
{
    if k >= ls.len() || k < 0 {
        Ok(seq![])
    } else {
        let fields = scan_pairs(ls[k], 0);
        match lookup(fields, name_key()) {
            None => Err(MissingField::Name),
            Some(name) => match lookup(fields, type_key()) {
                None => Err(MissingField::Type),
                Some(kind) => if is_listed_kind(kind) {
                    match parents_from(ls, k + 1) {
                        Ok(rest) => Ok(seq![name] + rest),
                        Err(e) => Err(e),
                    }
                } else if is_mpath_kind(kind) {
                    Ok(seq![name])
                } else {
                    parents_from(ls, k + 1)
                },
            },
        }
    }
}

proof fn lemma_parents_insert_shift(ls: Seq<Seq<char>>, j: int, line: Seq<char>, k: int)
    requires
        1 <= j <= k <= ls.len(),
    ensures
        parents_from(ls.insert(j, line), k + 1) == parents_from(ls, k),
    decreases ls.len() - k,
{
    let ins = ls.insert(j, line);
    if k < ls.len() {
        assert(ins[k + 1] == ls[k]);
        lemma_parents_insert_shift(ls, j, line, k + 1);
    }
}

proof fn lemma_parents_insert_other(ls: Seq<Seq<char>>, j: int, line: Seq<char>, k: int)
    requires
        1 <= k <= j <= ls.len(),
        lookup(scan_pairs(line, 0), name_key()) is Some,
        lookup(scan_pairs(line, 0), type_key()) matches Some(kind) && !is_listed_kind(kind)
            && !is_mpath_kind(kind),
    ensures
        parents_from(ls.insert(j, line), k) == parents_from(ls, k),
    decreases j - k,
{
    let ins = ls.insert(j, line);
    if k < j {
        assert(ins[k] == ls[k]);
        lemma_parents_insert_other(ls, j, line, k + 1);
    } else {
        assert(ins[j] == line);
        lemma_parents_insert_shift(ls, j, line, j);
    }
}

/// A device of another kind (such as a partition or an LVM volume) in the
/// hierarchy is passed over: inserting its line anywhere after the first
/// line changes nothing, so the walk goes on to the devices above it.
pub proof fn law_other_kinds_pass_over(ls: Seq<Seq<char>>, j: int, line: Seq<char>)
    requires
        1 <= j <= ls.len(),
        lookup(scan_pairs(line, 0), name_key()) is Some,
        lookup(scan_pairs(line, 0), type_key()) matches Some(kind) && !is_listed_kind(kind)
            && !is_mpath_kind(kind),
    ensures
        parents_from(ls.insert(j, line), 1) == parents_from(ls, 1),
{
    lemma_parents_insert_other(ls, j, line, 1);
}

/// A disk or loop device right above the device itself is listed first,
/// before whatever the rest of the hierarchy gives.
pub proof fn law_listed_kind_comes_first(ls: Seq<Seq<char>>, line: Seq<char>)
    requires
        1 <= ls.len(),
        lookup(scan_pairs(line, 0), name_key()) is Some,
        lookup(scan_pairs(line, 0), type_key()) matches Some(kind) && is_listed_kind(kind),
    ensures
        parents_from(ls.insert(1, line), 1) == prepend(
            seq![lookup(scan_pairs(line, 0), name_key())->Some_0],
            parents_from(ls, 1),
        ),
{
    let ins = ls.insert(1, line);
    assert(ins[1] == line);
    lemma_parents_insert_shift(ls, 1, line, 1);
}

/// The parents that `lsblk --pairs --paths --inverse --output NAME,TYPE`
/// printed in `output`: its first line, the device itself, is skipped.
pub open spec fn parent_devices_spec(output: Seq<char>) -> Result<Seq<Seq<char>>, MissingField> {
    parents_from(lines(output), 1)
}

/// `r` with `acc` put in front of its value.
pub open spec fn prepend(acc: Seq<Seq<char>>, r: Result<Seq<Seq<char>>, MissingField>) -> Result<
    Seq<Seq<char>>,
    MissingField,
> {
    match r {
        Ok(v) => Ok(acc + v),
        Err(e) => Err(e),
    }
}

/// Every device in the parent hierarchy of `device` that can contain
/// partitions, read from what `lsblk --pairs --paths --inverse --output
/// NAME,TYPE <device>` printed.
pub fn parent_devices_from_lsblk(device: &str, output: &str) -> (r: Result<Vec<String>, HierarchyError>)
    ensures
        match parent_devices_spec(output@) {
            Ok(names) => r matches Ok(v) && v@.map_values(|n: String| n@) == names,
            Err(field) => r matches Err(e) && e.device@ == device@ && e.missing == field,
        },
{
    let ls = lines_of(output);
    let ghost lv = ls@.map_values(|l: String| l@);
    let mut parents: Vec<String> = Vec::new();
    let mut k: usize = 1;
    assert(parents@.map_values(|n: String| n@) =~= Seq::<Seq<char>>::empty());
    assert(prepend(Seq::<Seq<char>>::empty(), parents_from(lv, 1)) == parents_from(lv, 1)) by {
        match parents_from(lv, 1) {
            Ok(v) => assert(Seq::<Seq<char>>::empty() + v =~= v),
            Err(_) => {},
        }
    }
    while k < ls.len()
        invariant
            1 <= k,
            lv == ls@.map_values(|l: String| l@),
            lv == lines(output@),
            parent_devices_spec(output@) == prepend(
                parents@.map_values(|n: String| n@),
                parents_from(lv, k as int),
            ),
        decreases ls.len() - k,
    {
        let ghost acc = parents@.map_values(|n: String| n@);
        proof {
            reveal_strlit("NAME");
            reveal_strlit("TYPE");
            reveal_strlit("disk");
            reveal_strlit("loop");
            reveal_strlit("mpath");
            assert("NAME"@ =~= name_key());
            assert("TYPE"@ =~= type_key());
            assert("disk"@ =~= seq!['d', 'i', 's', 'k']);
            assert("loop"@ =~= seq!['l', 'o', 'o', 'p']);
            assert("mpath"@ =~= seq!['m', 'p', 'a', 't', 'h']);
        }
        let fields = split_lsblk_line(ls[k].as_str());
        assert(ls@[k as int]@ == lv[k as int]);
        let name = match fields.get("NAME") {
            Some(n) => n,
            None => {
                return Err(HierarchyError { device: device.to_owned(), missing: MissingField::Name });
            },
        };
        let kind = match fields.get("TYPE") {
            Some(t) => t,
            None => {
                return Err(HierarchyError { device: device.to_owned(), missing: MissingField::Type });
            },
        };
        if str_eq(kind.as_str(), "disk") || str_eq(kind.as_str(), "loop") {
            parents.push(name.clone());
            proof {
                let nacc = parents@.map_values(|n: String| n@);
                assert(nacc =~= acc.push(name@));
                match parents_from(lv, k + 1) {
                    Ok(rest) => {
                        assert(acc + (seq![name@] + rest) =~= nacc + rest);
                    },
                    Err(_) => {},
                }
            }
        } else if str_eq(kind.as_str(), "mpath") {
            parents.push(name.clone());
            proof {
                let nacc = parents@.map_values(|n: String| n@);
                assert(nacc =~= acc + seq![name@]);
            }
            return Ok(parents);
        }
        k = k + 1;
    }
    proof {
        let acc = parents@.map_values(|n: String| n@);
        assert(acc + Seq::<Seq<char>>::empty() =~= acc);
    }
    Ok(parents)
}


/// One pair as `lsblk --pairs` prints it: `KEY="value"`.
pub open spec fn pair_text(p: (Seq<char>, Seq<char>)) -> Seq<char> {
    p.0 + seq!['=', '"'] + p.1 + seq!['"']
}

/// Pairs printed one after the other, separated by single spaces.
pub open spec fn pairs_text(ps: Seq<(Seq<char>, Seq<char>)>) -> Seq<char>
    decreases ps.len(),
{
    if ps.len() == 0 {
        seq![]
    } else if ps.len() == 1 {
        pair_text(ps[0])
    } else {
        pair_text(ps[0]) + seq![' '] + pairs_text(ps.drop_first())
    }
}

/// A pair that the line format can carry: a non-empty key of key
/// characters and a non-empty value without `"`.
pub open spec fn printable_pair(p: (Seq<char>, Seq<char>)) -> bool {
    &&& p.0.len() > 0
    &&& forall|i: int| 0 <= i < p.0.len() ==> is_key_char(#[trigger] p.0[i])
    &&& p.1.len() > 0
    &&& forall|i: int| 0 <= i < p.1.len() ==> #[trigger] p.1[i] != '"'
}

proof fn lemma_key_run_end_at(s: Seq<char>, i: int, j: int)
    requires
        0 <= i <= j <= s.len(),
        forall|k: int| i <= k < j ==> is_key_char(#[trigger] s[k]),
        j == s.len() || !is_key_char(s[j]),
    ensures
        key_run_end(s, i) == j,
    decreases j - i,
{
    if i < j {
        lemma_key_run_end_at(s, i + 1, j);
    }
}

proof fn lemma_index_of_from_at(s: Seq<char>, i: int, j: int, c: char)
    requires
        0 <= i <= j <= s.len(),
        forall|k: int| i <= k < j ==> #[trigger] s[k] != c,
        j == s.len() || s[j] == c,
    ensures
        index_of_from(s, i, c) == j,
    decreases j - i,
{
    if i < j {
        lemma_index_of_from_at(s, i + 1, j, c);
    }
}

proof fn lemma_key_run_end_shift(p: Seq<char>, t: Seq<char>, j: int)
    requires
        p.len() <= j <= p.len() + t.len(),
    ensures
        key_run_end(p + t, j) == key_run_end(t, j - p.len()) + p.len(),
    decreases p.len() + t.len() - j,
{
    if j < p.len() + t.len() {
        assert((p + t)[j] == t[j - p.len()]);
        lemma_key_run_end_shift(p, t, j + 1);
    }
}

proof fn lemma_index_of_from_shift(p: Seq<char>, t: Seq<char>, j: int, c: char)
    requires
        p.len() <= j <= p.len() + t.len(),
    ensures
        index_of_from(p + t, j, c) == index_of_from(t, j - p.len(), c) + p.len(),
    decreases p.len() + t.len() - j,
{
    if j < p.len() + t.len() {
        assert((p + t)[j] == t[j - p.len()]);
        lemma_index_of_from_shift(p, t, j + 1, c);
    }
}

proof fn lemma_pair_at_shift(p: Seq<char>, t: Seq<char>, j: int)
    requires
        p.len() <= j <= p.len() + t.len(),
    ensures
        pair_at(p + t, j) == (match pair_at(t, j - p.len()) {
            Some((k, q)) => Some((k + p.len(), q + p.len())),
            None => None,
        }),
{
    let s = p + t;
    let n = p.len() as int;
    lemma_key_run_end_shift(p, t, j);
    let k = key_run_end(s, j);
    crate::text::lemma_index_of_from_bounds(t, j - n, '"');
    if k > j && k + 1 < s.len() {
        assert(s[k] == t[k - n]);
        assert(s[k + 1] == t[k + 1 - n]);
        lemma_index_of_from_shift(p, t, k + 2, '"');
    }
}

proof fn lemma_scan_pairs_shift(p: Seq<char>, t: Seq<char>, j: int)
    requires
        p.len() <= j <= p.len() + t.len() + 1,
    ensures
        scan_pairs(p + t, j) == scan_pairs(t, j - p.len()),
    decreases p.len() + t.len() + 1 - j,
{
    let s = p + t;
    let n = p.len() as int;
    if j < s.len() {
        lemma_pair_at_shift(p, t, j);
        match pair_at(t, j - n) {
            Some((k, q)) => {
                crate::text::lemma_index_of_from_bounds(t, k + 2, '"');
                lemma_key_run_end_bounds(t, j - n);
                assert(s.subrange(j, k + n) =~= t.subrange(j - n, k));
                assert(s.subrange(k + n + 2, q + n) =~= t.subrange(k + 2, q));
                lemma_scan_pairs_shift(p, t, q + n + 1);
            },
            None => {
                lemma_scan_pairs_shift(p, t, j + 1);
            },
        }
    }
}

proof fn lemma_key_run_end_bounds(s: Seq<char>, i: int)
    requires
        0 <= i <= s.len(),
    ensures
        i <= key_run_end(s, i) <= s.len(),
    decreases s.len() - i,
{
    if i < s.len() && is_key_char(s[i]) {
        lemma_key_run_end_bounds(s, i + 1);
    }
}

/// The first pair of a line that starts with a printable pair is that pair,
/// and the scan goes on right after it.
proof fn lemma_pair_text_at_start(x: (Seq<char>, Seq<char>), rest: Seq<char>)
    requires
        printable_pair(x),
    ensures
        scan_pairs(pair_text(x) + rest, 0) == seq![x] + scan_pairs(rest, 0),
{
    let t = pair_text(x);
    let s = t + rest;
    let kl = x.0.len() as int;
    let vl = x.1.len() as int;
    assert(s[kl] == '=');
    assert forall|k: int| 0 <= k < kl implies is_key_char(#[trigger] s[k]) by {
        assert(s[k] == x.0[k]);
    }
    lemma_key_run_end_at(s, 0, kl);
    assert forall|k: int| kl + 2 <= k < kl + 2 + vl implies #[trigger] s[k] != '"' by {
        assert(s[k] == x.1[k - kl - 2]);
    }
    assert(s[kl + 2 + vl] == '"');
    lemma_index_of_from_at(s, kl + 2, kl + 2 + vl, '"');
    assert(pair_at(s, 0) == Some((kl, kl + 2 + vl)));
    assert(s.subrange(0, kl) =~= x.0);
    assert(s.subrange(kl + 2, kl + 2 + vl) =~= x.1);
    lemma_scan_pairs_shift(t, rest, t.len() as int);
}

/// Splitting a line made of printable pairs, separated by spaces, gives
/// those pairs back, in order.
pub proof fn law_split_pairs_roundtrip(ps: Seq<(Seq<char>, Seq<char>)>)
    requires
        forall|i: int| 0 <= i < ps.len() ==> printable_pair(#[trigger] ps[i]),
    ensures
        scan_pairs(pairs_text(ps), 0) == ps,
    decreases ps.len(),
{
    if ps.len() == 0 {
        assert(ps =~= Seq::<(Seq<char>, Seq<char>)>::empty());
    } else if ps.len() == 1 {
        assert(printable_pair(ps[0]));
        lemma_pair_text_at_start(ps[0], seq![]);
        assert(pair_text(ps[0]) + Seq::<char>::empty() =~= pair_text(ps[0]));
        assert(seq![ps[0]] + Seq::<(Seq<char>, Seq<char>)>::empty() =~= ps);
    } else {
        let tail = ps.drop_first();
        assert forall|i: int| 0 <= i < tail.len() implies printable_pair(#[trigger] tail[i]) by {
            assert(tail[i] == ps[i + 1]);
        }
        law_split_pairs_roundtrip(tail);
        let rest = seq![' '] + pairs_text(tail);
        assert(printable_pair(ps[0]));
        lemma_pair_text_at_start(ps[0], rest);
        assert(pair_text(ps[0]) + seq![' '] + pairs_text(tail) =~= pair_text(ps[0]) + rest);
        assert(pair_at(rest, 0) is None);
        lemma_scan_pairs_shift(seq![' '], pairs_text(tail), 1);
        assert(seq![ps[0]] + tail =~= ps);
    }
}

} // verus!
