//! The telemetry normalization engine: turns one flat telemetry record into
//! a canonical mapping with snake-cased keys, unit-resolved numeric values
//! and all values coerced to strings.
//!
//! A record is an ordered list of fields; the engine processes fields in
//! record order, which makes the result deterministic (the vendor's own
//! mapping carries no meaningful order, so the caller's order is the one
//! documented choice on key collisions: the later field wins).

use convert_case::Casing;
use vstd::prelude::*;

use crate::chars::{is_unit_char, lower_chars, lower_seq, str_eq, string_to_chars, unit_char,
    chars_to_string};
use crate::value::{coerce_spec, coerce_to_string, push_all, render_num, scalar_wf, scale_num,
    scale_number, render_number, Scalar, ScalarV};

verus! {

/// One field of a telemetry record.
pub struct Field {
    pub name: String,
    pub value: Scalar,
}

/// Spec-level image of a field.
pub struct FieldV {
    pub name: Seq<char>,
    pub value: ScalarV,
}

impl View for Field {
    type V = FieldV;

    open spec fn view(&self) -> FieldV {
        FieldV { name: self.name@, value: self.value@ }
    }
}

/// A raw telemetry record, in the order its fields arrived.
pub struct Record {
    pub fields: Vec<Field>,
}

impl View for Record {
    type V = Seq<FieldV>;

    open spec fn view(&self) -> Seq<FieldV> {
        self.fields@.map_values(|f: Field| f@)
    }
}

pub open spec fn record_wf(rec: Seq<FieldV>) -> bool {
    forall|i: int| 0 <= i < rec.len() ==> scalar_wf(#[trigger] rec[i].value)
}

/// One entry of a normalized record.
pub struct Entry {
    pub key: String,
    pub value: String,
}

/// The normalized record: canonical keys, string values, unique keys.
pub struct NormRecord {
    pub entries: Vec<Entry>,
}

impl View for NormRecord {
    type V = Seq<(Seq<char>, Seq<char>)>;

    open spec fn view(&self) -> Seq<(Seq<char>, Seq<char>)> {
        self.entries@.map_values(|e: Entry| (e.key@, e.value@))
    }
}

/// What the snake-case conversion returns for a given name.
pub uninterp spec fn snake_of(s: Seq<char>) -> Seq<char>;

/// Relies on convert_case's `to_case` with `Case::Snake`: the result is a
/// function of the input characters alone.
#[verifier::external_body]
pub(crate) fn snake_case(s: &str) -> (r: String)
    ensures
        r@ == snake_of(s@),
{
    s.to_case(convert_case::Case::Snake)
}

pub open spec fn suffix_str() -> Seq<char> {
    seq!['S', 't', 'r']
}

pub open spec fn time_marker() -> Seq<char> {
    seq!['T', 'i', 'm', 'e']
}

pub open spec fn ends_with_str(k: Seq<char>) -> bool {
    k.len() >= 3 && k.subrange(k.len() - 3, k.len() as int) == suffix_str()
}

pub open spec fn marker_at(k: Seq<char>, i: int) -> bool {
    0 <= i && i + 4 <= k.len() && k.subrange(i, i + 4) == time_marker()
}

pub open spec fn contains_time(k: Seq<char>) -> bool {
    exists|i: int| marker_at(k, i)
}

/// A unit-descriptor field name: ends with `Str` and does not mention
/// `Time` (timestamp fields use the same suffix for an unrelated reason).
pub open spec fn is_descriptor(k: Seq<char>) -> bool {
    ends_with_str(k) && !contains_time(k)
}

/// The base field a descriptor describes: the name with `Str` cut off.
pub open spec fn base_of(k: Seq<char>) -> Seq<char> {
    k.subrange(0, k.len() - 3)
}

/// The unit string with every char that is not an ASCII letter or digit
/// removed.
pub open spec fn clean_unit(s: Seq<char>) -> Seq<char>
    decreases s.len(),
{
    if s.len() == 0 {
        Seq::empty()
    } else if is_unit_char(s[0]) {
        seq![s[0]] + clean_unit(s.drop_first())
    } else {
        clean_unit(s.drop_first())
    }
}

/// The power of ten a unit rescales its base value by.
pub open spec fn unit_exp(u: Seq<char>) -> int {
    if u == seq!['W', 'h'] {
        -3
    } else if u == seq!['M', 'W', 'h'] {
        3
    } else if u == seq!['G', 'W', 'h'] {
        6
    } else {
        0
    }
}

/// The unit the rescaled value is reported in.
pub open spec fn unit_name(u: Seq<char>) -> Seq<char> {
    if u == seq!['W', 'h'] || u == seq!['M', 'W', 'h'] || u == seq!['G', 'W', 'h'] {
        seq!['k', 'W', 'h']
    } else {
        u
    }
}

/// The destination key of a unit-processed field: snake-cased base name,
/// an underscore, and the lowercased resolved unit.
pub open spec fn unit_key(b: Seq<char>, cu: Seq<char>) -> Seq<char> {
    snake_of(b) + seq!['_'] + lower_seq(unit_name(cu))
}

/// The value emitted for a unit-processed base field: a number is rescaled
/// by the unit's power of ten, anything else passes through unscaled.
pub open spec fn unit_value(v: ScalarV, cu: Seq<char>) -> Seq<char> {
    match v {
        ScalarV::Num(n) => render_num(scale_num(n, unit_exp(cu))),
        _ => coerce_spec(v),
    }
}

/// Whether `k` ends with the `Str` suffix.
fn ends_with_str_x(k: &str) -> (r: bool)
    ensures
        r == ends_with_str(k@),
{
    let n = k.unicode_len();
    if n < 3 {
        return false;
    }
    let r = k.get_char(n - 3) == 'S' && k.get_char(n - 2) == 't' && k.get_char(n - 1) == 'r';
    proof {
        if r {
            assert(k@.subrange(k@.len() - 3, k@.len() as int) =~= suffix_str());
        } else {
            assert(k@.subrange(k@.len() - 3, k@.len() as int) != suffix_str());
        }
    }
    r
}

/// Whether `k` contains `Time`.
fn contains_time_x(k: &str) -> (r: bool)
    ensures
        r == contains_time(k@),
{
    let n = k.unicode_len();
    if n < 4 {
        proof {
            assert forall|j: int| !marker_at(k@, j) by {
                if marker_at(k@, j) {
                    assert(0 <= j && j + 4 <= k@.len());
                }
            }
        }
        return false;
    }
    let mut i: usize = 0;
    while i <= n - 4
        invariant
            n == k@.len(),
            4 <= n,
            i <= n - 3,
            forall|j: int| 0 <= j < i ==> !marker_at(k@, j),
        decreases n - i,
    {
        let hit = k.get_char(i) == 'T' && k.get_char(i + 1) == 'i' && k.get_char(i + 2) == 'm'
            && k.get_char(i + 3) == 'e';
        proof {
            if hit {
                assert(k@.subrange(i as int, i + 4 as int) =~= time_marker());
                assert(marker_at(k@, i as int));
            } else {
                assert(k@.subrange(i as int, i + 4 as int) != time_marker());
            }
        }
        if hit {
            return true;
        }
        i = i + 1;
    }
    proof {
        assert forall|j: int| !marker_at(k@, j) by {
            if marker_at(k@, j) {
                assert(0 <= j && j + 4 <= k@.len());
                assert(j < i);
            }
        }
    }
    false
}

/// The base name of a descriptor.
fn base_of_x(k: &str) -> (r: String)
    requires
        k@.len() >= 3,
    ensures
        r@ == base_of(k@),
{
    let n = k.unicode_len();
    k.substring_char(0, n - 3).to_owned()
}

/// Cleans a unit string down to its ASCII letters and digits.
fn clean_unit_x(s: &str) -> (r: Vec<char>)
    ensures
        r@ == clean_unit(s@),
{
    let n = s.unicode_len();
    let mut r: Vec<char> = Vec::new();
    let mut i: usize = 0;
    proof {
        assert(s@.subrange(0, n as int) =~= s@);
        assert(Seq::<char>::empty() + clean_unit(s@) =~= clean_unit(s@));
    }
    while i < n
        invariant
            n == s@.len(),
            i <= n,
            clean_unit(s@) == r@ + clean_unit(s@.subrange(i as int, n as int)),
        decreases n - i,
    {
        let ghost rest = s@.subrange(i as int, n as int);
        let ghost r_old = r@;
        let c = s.get_char(i);
        proof {
            assert(rest.len() > 0);
            assert(rest[0] == s@[i as int]);
            assert(rest.drop_first() =~= s@.subrange(i + 1 as int, n as int));
        }
        if unit_char(c) {
            r.push(c);
            proof {
                assert(clean_unit(rest) == seq![rest[0]] + clean_unit(rest.drop_first()));
                assert(r@ =~= r_old + seq![c]);
                assert(r@ + clean_unit(rest.drop_first()) =~= r_old + clean_unit(rest));
            }
        } else {
            proof {
                assert(clean_unit(rest) == clean_unit(rest.drop_first()));
            }
        }
        i = i + 1;
    }
    proof {
        assert(s@.subrange(n as int, n as int) =~= Seq::<char>::empty());
        assert(clean_unit(Seq::<char>::empty()) == Seq::<char>::empty());
        assert(clean_unit(s@) =~= r@);
    }
    r
}

/// Compares a char vector with a short literal, element by element.
fn chars_eq(v: &Vec<char>, s: &str) -> (r: bool)
    ensures
        r == (v@ == s@),
{
    let n = s.unicode_len();
    if v.len() != n {
        proof {
            assert(v@.len() != s@.len());
        }
        return false;
    }
    let mut i: usize = 0;
    while i < n
        invariant
            n == s@.len(),
            n == v@.len(),
            i <= n,
            forall|j: int| 0 <= j < i ==> v@[j] == s@[j],
        decreases n - i,
    {
        if v[i] != s.get_char(i) {
            return false;
        }
        i = i + 1;
    }
    proof {
        assert(v@ =~= s@);
    }
    true
}

/// Resolves a cleaned unit against the fixed rescaling table.
fn unit_table(cu: &Vec<char>) -> (r: (i32, Vec<char>))
    ensures
        r.0 == unit_exp(cu@),
        r.1@ == unit_name(cu@),
        -9 <= r.0 <= 9,
{
    proof {
        reveal_strlit("Wh");
        reveal_strlit("MWh");
        reveal_strlit("GWh");
        assert("Wh"@ =~= seq!['W', 'h']);
        assert("MWh"@ =~= seq!['M', 'W', 'h']);
        assert("GWh"@ =~= seq!['G', 'W', 'h']);
    }
    if chars_eq(cu, "Wh") {
        let mut name: Vec<char> = Vec::new();
        name.push('k');
        name.push('W');
        name.push('h');
        proof {
            assert(name@ =~= seq!['k', 'W', 'h']);
        }
        (-3, name)
    } else if chars_eq(cu, "MWh") {
        let mut name: Vec<char> = Vec::new();
        name.push('k');
        name.push('W');
        name.push('h');
        proof {
            assert(name@ =~= seq!['k', 'W', 'h']);
        }
        (3, name)
    } else if chars_eq(cu, "GWh") {
        let mut name: Vec<char> = Vec::new();
        name.push('k');
        name.push('W');
        name.push('h');
        proof {
            assert(name@ =~= seq!['k', 'W', 'h']);
        }
        (6, name)
    } else {
        let mut name: Vec<char> = Vec::new();
        push_all(&mut name, cu);
        (0, name)
    }
}

/// The index of the first entry with key `k` at or after `i`, or -1.
pub open spec fn find_key_from(out: Seq<(Seq<char>, Seq<char>)>, k: Seq<char>, i: int) -> int
    decreases out.len() - i,
{
    if i < 0 || i >= out.len() {
        -1
    } else if out[i].0 == k {
        i
    } else {
        find_key_from(out, k, i + 1)
    }
}

pub open spec fn contains_key(out: Seq<(Seq<char>, Seq<char>)>, k: Seq<char>) -> bool {
    exists|p: int| 0 <= p < out.len() && out[p].0 == k
}

/// Inserts `(k, v)`: replaces the value of the entry that already has key
/// `k`, or appends a new entry. The later write wins.
pub open spec fn upsert(out: Seq<(Seq<char>, Seq<char>)>, k: Seq<char>, v: Seq<char>) -> Seq<
    (Seq<char>, Seq<char>),
> {
    let p = find_key_from(out, k, 0);
    if p >= 0 {
        out.update(p, (k, v))
    } else {
        out.push((k, v))
    }
}

/// The index of the first not-yet-consumed field named `name` at or after
/// `j`, or -1.
pub open spec fn find_base_from(rec: Seq<FieldV>, c: Seq<bool>, name: Seq<char>, j: int) -> int
    decreases rec.len() - j,
{
    if j < 0 || j >= rec.len() || j >= c.len() {
        -1
    } else if rec[j].name == name && !c[j] {
        j
    } else {
        find_base_from(rec, c, name, j + 1)
    }
}

/// One step of the descriptor pass at index `i`: if the field is a genuine
/// unit descriptor whose cleaned unit is non-empty and whose base field is
/// present and unconsumed, both are consumed and the renamed, rescaled entry
/// is written; otherwise nothing changes.
pub open spec fn pass1_step(
    rec: Seq<FieldV>,
    i: int,
    c: Seq<bool>,
    o: Seq<(Seq<char>, Seq<char>)>,
) -> (Seq<bool>, Seq<(Seq<char>, Seq<char>)>) {
    let k = rec[i].name;
    match rec[i].value {
        ScalarV::Str(u) => {
            if is_descriptor(k) && clean_unit(u).len() > 0 {
                let j = find_base_from(rec, c, base_of(k), 0);
                if j >= 0 {
                    let cu = clean_unit(u);
                    (
                        c.update(j, true).update(i, true),
                        upsert(o, unit_key(base_of(k), cu), unit_value(rec[j].value, cu)),
                    )
                } else {
                    (c, o)
                }
            } else {
                (c, o)
            }
        },
        _ => (c, o),
    }
}

/// The descriptor pass from index `i` on.
pub open spec fn pass1_from(
    rec: Seq<FieldV>,
    i: int,
    c: Seq<bool>,
    o: Seq<(Seq<char>, Seq<char>)>,
) -> (Seq<bool>, Seq<(Seq<char>, Seq<char>)>)
    decreases rec.len() - i,
{
    if i < 0 || i >= rec.len() {
        (c, o)
    } else {
        let s = pass1_step(rec, i, c, o);
        pass1_from(rec, i + 1, s.0, s.1)
    }
}

/// The catch-all pass from index `i` on: every unconsumed field is emitted
/// under its snake-cased key with its value coerced to a string.
pub open spec fn pass2_from(
    rec: Seq<FieldV>,
    i: int,
    c: Seq<bool>,
    o: Seq<(Seq<char>, Seq<char>)>,
) -> Seq<(Seq<char>, Seq<char>)>
    decreases rec.len() - i,
{
    if i < 0 || i >= rec.len() {
        o
    } else if i < c.len() && !c[i] {
        pass2_from(rec, i + 1, c, upsert(o, snake_of(rec[i].name), coerce_spec(rec[i].value)))
    } else {
        pass2_from(rec, i + 1, c, o)
    }
}

/// The whole normalization: the descriptor pass over the record in order,
/// then the catch-all pass over what it left, starting from an empty output.
pub open spec fn norm_spec(rec: Seq<FieldV>) -> Seq<(Seq<char>, Seq<char>)> {
    let s = pass1_from(rec, 0, Seq::new(rec.len(), |i: int| false), Seq::empty());
    pass2_from(rec, 0, s.0, s.1)
}

/// Finds the entry with key `k`.
fn find_key_x(out: &NormRecord, k: &str) -> (r: Option<usize>)
    ensures
        match r {
            Some(p) => find_key_from(out@, k@, 0) == p as int && p < out@.len(),
            None => find_key_from(out@, k@, 0) == -1,
        },
{
    let n = out.entries.len();
    let mut i: usize = 0;
    while i < n
        invariant
            n == out@.len(),
            i <= n,
            find_key_from(out@, k@, 0) == find_key_from(out@, k@, i as int),
        decreases n - i,
    {
        if str_eq(out.entries[i].key.as_str(), k) {
            proof {
                assert(out@[i as int].0 == k@);
            }
            return Some(i);
        }
        proof {
            assert(out@[i as int].0 != k@);
        }
        i = i + 1;
    }
    None
}

/// Writes `(k, v)` into the normalized record, replacing an entry that
/// already carries the key.
fn upsert_x(out: &mut NormRecord, k: String, v: String)
    ensures
        final(out)@ == upsert(old(out)@, k@, v@),
{
    let ghost k_v = k@;
    let ghost v_v = v@;
    match find_key_x(out, k.as_str()) {
        Some(p) => {
            out.entries[p] = Entry { key: k, value: v };
            proof {
                assert(out@ =~= old(out)@.update(p as int, (k_v, v_v)));
            }
        },
        None => {
            out.entries.push(Entry { key: k, value: v });
            proof {
                assert(out@ =~= old(out)@.push((k_v, v_v)));
            }
        },
    }
}

/// Finds the first unconsumed field named `base`.
fn find_base_x(rec: &Record, consumed: &Vec<bool>, base: &str) -> (r: Option<usize>)
    requires
        consumed@.len() == rec@.len(),
    ensures
        match r {
            Some(j) => find_base_from(rec@, consumed@, base@, 0) == j as int && j < rec@.len(),
            None => find_base_from(rec@, consumed@, base@, 0) == -1,
        },
{
    let n = rec.fields.len();
    let mut j: usize = 0;
    while j < n
        invariant
            n == rec@.len(),
            consumed@.len() == n,
            j <= n,
            find_base_from(rec@, consumed@, base@, 0) == find_base_from(
                rec@,
                consumed@,
                base@,
                j as int,
            ),
        decreases n - j,
    {
        let hit = str_eq(rec.fields[j].name.as_str(), base) && !consumed[j];
        proof {
            assert(rec@[j as int].name == rec.fields@[j as int]@.name);
        }
        if hit {
            return Some(j);
        }
        j = j + 1;
    }
    None
}

/// Builds the destination key of a fired descriptor.
fn build_unit_key(base: &str, uname: &Vec<char>) -> (r: String)
    ensures
        r@ == snake_of(base@) + seq!['_'] + lower_seq(uname@),
{
    let sn = snake_case(base);
    let mut keyv: Vec<char> = string_to_chars(sn.as_str());
    keyv.push('_');
    let lw = lower_chars(uname);
    push_all(&mut keyv, &lw);
    proof {
        assert(keyv@ =~= snake_of(base@) + seq!['_'] + lower_seq(uname@));
    }
    chars_to_string(&keyv)
}

/// Normalizes one telemetry record: unit descriptors are reconciled with
/// their base fields in record order, then everything left is emitted under
/// its snake-cased key; all values become strings. The result is exactly
/// `norm_spec` of the record.
pub fn normalize(rec: &Record) -> (out: NormRecord)
    requires
        record_wf(rec@),
    ensures
        out@ == norm_spec(rec@),
        keys_unique(out@),
{
    let n = rec.fields.len();
    let mut consumed: Vec<bool> = Vec::new();
    let mut z: usize = 0;
    while z < n
        invariant
            z <= n,
            consumed@.len() == z,
            forall|j: int| 0 <= j < z ==> consumed@[j] == false,
        decreases n - z,
    {
        consumed.push(false);
        z = z + 1;
    }
    let mut out = NormRecord { entries: Vec::new() };
    let ghost init_c = consumed@;
    let ghost init_o = out@;
    proof {
        assert(init_c =~= Seq::new(rec@.len(), |i: int| false));
        assert(init_o =~= Seq::<(Seq<char>, Seq<char>)>::empty());
    }

    let mut i: usize = 0;
    while i < n
        invariant
            n == rec@.len(),
            consumed@.len() == n,
            i <= n,
            record_wf(rec@),
            pass1_from(rec@, 0, init_c, init_o) == pass1_from(rec@, i as int, consumed@, out@),
        decreases n - i,
    {
        let ghost c0 = consumed@;
        let ghost o0 = out@;
        proof {
            assert(rec@[i as int] == rec.fields@[i as int]@);
        }
        let f = &rec.fields[i];
        let is_desc = ends_with_str_x(f.name.as_str()) && !contains_time_x(f.name.as_str());
        match &f.value {
            Scalar::Str(u) => {
                let cu = clean_unit_x(u.as_str());
                if is_desc && cu.len() > 0 {
                    let base = base_of_x(f.name.as_str());
                    match find_base_x(rec, &consumed, base.as_str()) {
                        Some(j) => {
                            let (exp, uname) = unit_table(&cu);
                            proof {
                                assert(rec@[j as int] == rec.fields@[j as int]@);
                            }
                            let val: String = match &rec.fields[j].value {
                                Scalar::Num(num) => {
                                    let sc = scale_number(num, exp);
                                    render_number(&sc)
                                },
                                other => coerce_to_string(other),
                            };
                            let key = build_unit_key(base.as_str(), &uname);
                            consumed[j] = true;
                            consumed[i] = true;
                            proof {
                                assert(key@ == unit_key(base_of(rec@[i as int].name), cu@));
                                assert(val@ == unit_value(rec@[j as int].value, cu@));
                                assert(consumed@ == c0.update(j as int, true).update(
                                    i as int,
                                    true,
                                ));
                            }
                            upsert_x(&mut out, key, val);
                            proof {
                                let step = pass1_step(rec@, i as int, c0, o0);
                                assert(consumed@ == step.0);
                                assert(out@ == step.1);
                            }
                        },
                        None => {
                            proof {
                                let step = pass1_step(rec@, i as int, c0, o0);
                                assert(consumed@ == step.0 && out@ == step.1);
                            }
                        },
                    }
                } else {
                    proof {
                        let step = pass1_step(rec@, i as int, c0, o0);
                        assert(consumed@ == step.0 && out@ == step.1);
                    }
                }
            },
            _ => {
                proof {
                    let step = pass1_step(rec@, i as int, c0, o0);
                    assert(consumed@ == step.0 && out@ == step.1);
                }
            },
        }
        proof {
            let step = pass1_step(rec@, i as int, c0, o0);
            assert(pass1_from(rec@, i as int, c0, o0) == pass1_from(rec@, i + 1, step.0, step.1));
            assert(pass1_from(rec@, i as int, c0, o0) == pass1_from(
                rec@,
                i + 1,
                consumed@,
                out@,
            ));
        }
        i = i + 1;
    }

    let ghost c1 = consumed@;
    let ghost o1 = out@;
    proof {
        assert(pass1_from(rec@, 0, init_c, init_o) == (c1, o1));
    }

    let mut i2: usize = 0;
    while i2 < n
        invariant
            n == rec@.len(),
            consumed@ == c1,
            c1.len() == n,
            i2 <= n,
            pass2_from(rec@, 0, c1, o1) == pass2_from(rec@, i2 as int, c1, out@),
        decreases n - i2,
    {
        let ghost o2 = out@;
        proof {
            assert(rec@[i2 as int] == rec.fields@[i2 as int]@);
        }
        if !consumed[i2] {
            let f = &rec.fields[i2];
            let key = snake_case(f.name.as_str());
            let val = coerce_to_string(&f.value);
            upsert_x(&mut out, key, val);
            proof {
                assert(out@ == upsert(o2, snake_of(rec@[i2 as int].name), coerce_spec(
                    rec@[i2 as int].value,
                )));
            }
        }
        proof {
            assert(pass2_from(rec@, i2 as int, c1, o2) == pass2_from(rec@, i2 + 1, c1, out@));
        }
        i2 = i2 + 1;
    }
    proof {
        assert(out@ == norm_spec(rec@));
        lemma_norm_keys_unique(rec@);
    }
    out
}

impl NormRecord {
    /// Looks a key up; returns the value of the first entry carrying it.
    pub fn get(&self, key: &str) -> (r: Option<&String>)
        ensures
            match r {
                Some(v) => {
                    let p = find_key_from(self@, key@, 0);
                    0 <= p < self@.len() && self@[p].1 == v@ && contains_key(self@, key@)
                },
                None => !contains_key(self@, key@),
            },
    {
        match find_key_x(self, key) {
            Some(p) => {
                proof {
                    let q = find_key_from(self@, key@, 0);
                    assert(self@[q].0 == key@) by {
                        lemma_find_key_hit(self@, key@, 0);
                    }
                }
                Some(&self.entries[p].value)
            },
            None => {
                proof {
                    lemma_find_key_miss(self@, key@, 0);
                }
                None
            },
        }
    }
}

/// If the search returns an index, that entry carries the key.
proof fn lemma_find_key_hit(out: Seq<(Seq<char>, Seq<char>)>, k: Seq<char>, i: int)
    requires
        find_key_from(out, k, i) >= 0,
    ensures
        out[find_key_from(out, k, i)].0 == k,
        i <= find_key_from(out, k, i) < out.len(),
    decreases out.len() - i,
{
    if i < 0 || i >= out.len() {
    } else if out[i].0 == k {
    } else {
        lemma_find_key_hit(out, k, i + 1);
    }
}

/// If the search misses, no entry at or after `i` carries the key.
proof fn lemma_find_key_miss(out: Seq<(Seq<char>, Seq<char>)>, k: Seq<char>, i: int)
    requires
        find_key_from(out, k, i) < 0,
        0 <= i,
    ensures
        forall|p: int| i <= p < out.len() ==> out[p].0 != k,
    decreases out.len() - i,
{
    if i >= out.len() {
    } else {
        lemma_find_key_miss(out, k, i + 1);
    }
}

/// If the base search returns an index, that field has the name and is
/// unconsumed.
proof fn lemma_find_base_hit(rec: Seq<FieldV>, c: Seq<bool>, name: Seq<char>, j: int)
    requires
        find_base_from(rec, c, name, j) >= 0,
    ensures
        j <= find_base_from(rec, c, name, j) < rec.len(),
        find_base_from(rec, c, name, j) < c.len(),
        rec[find_base_from(rec, c, name, j)].name == name,
        !c[find_base_from(rec, c, name, j)],
    decreases rec.len() - j,
{
    if j < 0 || j >= rec.len() || j >= c.len() {
    } else if rec[j].name == name && !c[j] {
    } else {
        lemma_find_base_hit(rec, c, name, j + 1);
    }
}

/// An upsert leaves its own key present and keeps every key that was there.
proof fn lemma_upsert_keeps(
    o: Seq<(Seq<char>, Seq<char>)>,
    k: Seq<char>,
    v: Seq<char>,
    kk: Seq<char>,
)
    ensures
        contains_key(upsert(o, k, v), k),
        contains_key(o, kk) ==> contains_key(upsert(o, k, v), kk),
{
    let p = find_key_from(o, k, 0);
    let o2 = upsert(o, k, v);
    if p >= 0 {
        lemma_find_key_hit(o, k, 0);
        assert(o2[p].0 == k);
        if contains_key(o, kk) {
            let q = choose|q: int| 0 <= q < o.len() && o[q].0 == kk;
            if q == p {
                assert(o2[p].0 == kk);
            } else {
                assert(o2[q].0 == kk);
            }
        }
    } else {
        assert(o2[o.len() as int].0 == k);
        if contains_key(o, kk) {
            let q = choose|q: int| 0 <= q < o.len() && o[q].0 == kk;
            assert(o2[q].0 == kk);
        }
    }
}

/// The key a descriptor would emit, were it to fire.
pub open spec fn descriptor_key(rec: Seq<FieldV>, d: int) -> Seq<char> {
    match rec[d].value {
        ScalarV::Str(u) => unit_key(base_of(rec[d].name), clean_unit(u)),
        _ => Seq::empty(),
    }
}

/// Whether the descriptor at `d` speaks for the field at `i`: it is that
/// field itself, or the field is its base.
pub open spec fn covers(rec: Seq<FieldV>, d: int, i: int) -> bool {
    d == i || (match rec[d].value {
        ScalarV::Str(_) => base_of(rec[d].name) == rec[i].name,
        _ => false,
    })
}

/// The field at `i` appears in `out` in some form: under its own
/// snake-cased key, or folded into the renamed entry of a descriptor that
/// consumed it.
pub open spec fn accounted(rec: Seq<FieldV>, out: Seq<(Seq<char>, Seq<char>)>, i: int) -> bool {
    contains_key(out, snake_of(rec[i].name)) || exists|d: int|
        0 <= d < rec.len() && #[trigger] covers(rec, d, i) && contains_key(
            out,
            descriptor_key(rec, d),
        )
}

/// Being accounted for survives any later write.
proof fn lemma_accounted_upsert(
    rec: Seq<FieldV>,
    o: Seq<(Seq<char>, Seq<char>)>,
    k: Seq<char>,
    v: Seq<char>,
    i: int,
)
    requires
        accounted(rec, o, i),
    ensures
        accounted(rec, upsert(o, k, v), i),
{
    if contains_key(o, snake_of(rec[i].name)) {
        lemma_upsert_keeps(o, k, v, snake_of(rec[i].name));
    } else {
        let d = choose|d: int|
            0 <= d < rec.len() && #[trigger] covers(rec, d, i) && contains_key(
                o,
                descriptor_key(rec, d),
            );
        lemma_upsert_keeps(o, k, v, descriptor_key(rec, d));
        assert(covers(rec, d, i) && contains_key(upsert(o, k, v), descriptor_key(rec, d)));
    }
}

/// Through the descriptor pass, every consumed field stays accounted for in
/// the output built so far.
proof fn lemma_pass1_accounts(
    rec: Seq<FieldV>,
    t: int,
    c: Seq<bool>,
    o: Seq<(Seq<char>, Seq<char>)>,
)
    requires
        0 <= t <= rec.len(),
        c.len() == rec.len(),
        forall|j: int| 0 <= j < rec.len() && c[j] ==> #[trigger] accounted(rec, o, j),
    ensures
        pass1_from(rec, t, c, o).0.len() == rec.len(),
        forall|j: int|
            0 <= j < rec.len() && pass1_from(rec, t, c, o).0[j] ==> #[trigger] accounted(
                rec,
                pass1_from(rec, t, c, o).1,
                j,
            ),
    decreases rec.len() - t,
{
    if t >= rec.len() {
    } else {
        let step = pass1_step(rec, t, c, o);
        match rec[t].value {
            ScalarV::Str(u) => {
                if is_descriptor(rec[t].name) && clean_unit(u).len() > 0 {
                    let b = base_of(rec[t].name);
                    let j = find_base_from(rec, c, b, 0);
                    if j >= 0 {
                        lemma_find_base_hit(rec, c, b, 0);
                        let cu = clean_unit(u);
                        let dk = unit_key(b, cu);
                        let c2 = c.update(j, true).update(t, true);
                        let o2 = upsert(o, dk, unit_value(rec[j].value, cu));
                        assert(dk == descriptor_key(rec, t));
                        assert forall|q: int| 0 <= q < rec.len() && c2[q] implies accounted(
                            rec,
                            o2,
                            q,
                        ) by {
                            lemma_upsert_keeps(o, dk, unit_value(rec[j].value, cu), dk);
                            if q == t {
                                assert(covers(rec, t, t));
                            } else if q == j {
                                assert(covers(rec, t, j));
                            } else {
                                assert(c[q]);
                                lemma_accounted_upsert(
                                    rec,
                                    o,
                                    dk,
                                    unit_value(rec[j].value, cu),
                                    q,
                                );
                            }
                        }
                        lemma_pass1_accounts(rec, t + 1, c2, o2);
                    } else {
                        lemma_pass1_accounts(rec, t + 1, c, o);
                    }
                } else {
                    lemma_pass1_accounts(rec, t + 1, c, o);
                }
            },
            _ => {
                lemma_pass1_accounts(rec, t + 1, c, o);
            },
        }
    }
}

/// Through the catch-all pass, every field ends up accounted for.
proof fn lemma_pass2_accounts(
    rec: Seq<FieldV>,
    t: int,
    c: Seq<bool>,
    o: Seq<(Seq<char>, Seq<char>)>,
)
    requires
        0 <= t <= rec.len(),
        c.len() == rec.len(),
        forall|j: int| 0 <= j < rec.len() && (c[j] || j < t) ==> #[trigger] accounted(rec, o, j),
    ensures
        forall|j: int| 0 <= j < rec.len() ==> #[trigger] accounted(rec, pass2_from(rec, t, c, o), j),
    decreases rec.len() - t,
{
    if t >= rec.len() {
    } else if !c[t] {
        let sk = snake_of(rec[t].name);
        let o2 = upsert(o, sk, coerce_spec(rec[t].value));
        assert forall|j: int| 0 <= j < rec.len() && (c[j] || j < t + 1) implies accounted(
            rec,
            o2,
            j,
        ) by {
            if j == t {
                lemma_upsert_keeps(o, sk, coerce_spec(rec[t].value), sk);
            } else {
                lemma_accounted_upsert(rec, o, sk, coerce_spec(rec[t].value), j);
            }
        }
        lemma_pass2_accounts(rec, t + 1, c, o2);
        assert(t < c.len());
        assert(pass2_from(rec, t, c, o) == pass2_from(rec, t + 1, c, o2));
    } else {
        lemma_pass2_accounts(rec, t + 1, c, o);
        assert(pass2_from(rec, t, c, o) == pass2_from(rec, t + 1, c, o));
    }
}

/// No field is silently dropped: every field of the input record appears in
/// the normalized output in some form — under its own snake-cased key, or
/// consumed into the renamed, unit-resolved entry of the descriptor pair it
/// belonged to.
pub proof fn lemma_no_field_dropped(rec: Seq<FieldV>, i: int)
    requires
        0 <= i < rec.len(),
    ensures
        accounted(rec, norm_spec(rec), i),
{
    let c0 = Seq::new(rec.len(), |q: int| false);
    let o0 = Seq::<(Seq<char>, Seq<char>)>::empty();
    lemma_pass1_accounts(rec, 0, c0, o0);
    let s = pass1_from(rec, 0, c0, o0);
    lemma_pass2_accounts(rec, 0, s.0, s.1);
}

/// The normalizer is a pure function of the record: equal records give
/// byte-identical output, so normalizing the same input twice produces the
/// same mapping both times. (The record's own field order is part of the
/// input; it decides collisions.)
pub proof fn lemma_normalize_deterministic(a: Seq<FieldV>, b: Seq<FieldV>)
    requires
        a == b,
    ensures
        norm_spec(a) == norm_spec(b),
{
}

/// A field named `updateTimeStr` is never unit-processed, whatever its
/// value: its name mentions `Time`, so normalizing a record of that single
/// field emits exactly the one catch-all entry, its snake-cased key and its
/// value coerced to a string.
pub proof fn lemma_update_time_str_passthrough(v: ScalarV)
    ensures
        norm_spec(seq![FieldV { name: "updateTimeStr"@, value: v }]) =~= seq![
            (snake_of("updateTimeStr"@), coerce_spec(v)),
        ],
{
    reveal_strlit("updateTimeStr");
    let k = "updateTimeStr"@;
    assert(k.len() == 13);
    assert(k.subrange(6, 10) =~= time_marker());
    assert(marker_at(k, 6));
    assert(contains_time(k));
    assert(!is_descriptor(k));
    let rec = seq![FieldV { name: k, value: v }];
    let c0 = Seq::new(rec.len(), |q: int| false);
    let o0 = Seq::<(Seq<char>, Seq<char>)>::empty();
    assert(rec[0].name == k);
    match v {
        ScalarV::Str(u) => {
            assert(pass1_step(rec, 0, c0, o0) == (c0, o0));
        },
        _ => {
            assert(pass1_step(rec, 0, c0, o0) == (c0, o0));
        },
    }
    assert(pass1_from(rec, 1, c0, o0) == (c0, o0));
    assert(pass1_from(rec, 0, c0, o0) == (c0, o0));
    assert(!c0[0]);
    let o1 = upsert(o0, snake_of(k), coerce_spec(v));
    assert(find_key_from(o0, snake_of(k), 0) == -1);
    assert(o1 =~= seq![(snake_of(k), coerce_spec(v))]);
    assert(pass2_from(rec, 1, c0, o1) == o1);
    assert(pass2_from(rec, 0, c0, o0) == o1);
    assert(norm_spec(rec) == o1);
}

/// No two entries of the output share a key.
pub open spec fn keys_unique(out: Seq<(Seq<char>, Seq<char>)>) -> bool {
    forall|p: int, q: int| 0 <= p < q < out.len() ==> out[p].0 != out[q].0
}

/// An upsert never introduces a duplicate key.
proof fn lemma_upsert_unique(o: Seq<(Seq<char>, Seq<char>)>, k: Seq<char>, v: Seq<char>)
    requires
        keys_unique(o),
    ensures
        keys_unique(upsert(o, k, v)),
{
    let p = find_key_from(o, k, 0);
    let o2 = upsert(o, k, v);
    if p >= 0 {
        lemma_find_key_hit(o, k, 0);
        assert forall|x: int, y: int| 0 <= x < y < o2.len() implies o2[x].0 != o2[y].0 by {
            assert(o2[x].0 == o[x].0);
            assert(o2[y].0 == o[y].0);
        }
    } else {
        lemma_find_key_miss(o, k, 0);
        assert forall|x: int, y: int| 0 <= x < y < o2.len() implies o2[x].0 != o2[y].0 by {
            if y == o.len() {
                assert(o2[x].0 == o[x].0 && o[x].0 != k);
            }
        }
    }
}

proof fn lemma_pass1_unique(rec: Seq<FieldV>, t: int, c: Seq<bool>, o: Seq<(Seq<char>, Seq<char>)>)
    requires
        0 <= t <= rec.len(),
        keys_unique(o),
    ensures
        keys_unique(pass1_from(rec, t, c, o).1),
    decreases rec.len() - t,
{
    if t >= rec.len() {
    } else {
        let step = pass1_step(rec, t, c, o);
        match rec[t].value {
            ScalarV::Str(u) => {
                if is_descriptor(rec[t].name) && clean_unit(u).len() > 0 {
                    let j = find_base_from(rec, c, base_of(rec[t].name), 0);
                    if j >= 0 {
                        let cu = clean_unit(u);
                        lemma_upsert_unique(
                            o,
                            unit_key(base_of(rec[t].name), cu),
                            unit_value(rec[j].value, cu),
                        );
                    }
                }
            },
            _ => {},
        }
        lemma_pass1_unique(rec, t + 1, step.0, step.1);
    }
}

proof fn lemma_pass2_unique(rec: Seq<FieldV>, t: int, c: Seq<bool>, o: Seq<(Seq<char>, Seq<char>)>)
    requires
        0 <= t <= rec.len(),
        keys_unique(o),
    ensures
        keys_unique(pass2_from(rec, t, c, o)),
    decreases rec.len() - t,
{
    if t >= rec.len() {
    } else if 0 <= t < c.len() && !c[t] {
        lemma_upsert_unique(o, snake_of(rec[t].name), coerce_spec(rec[t].value));
        lemma_pass2_unique(rec, t + 1, c, upsert(o, snake_of(rec[t].name), coerce_spec(
            rec[t].value,
        )));
    } else {
        lemma_pass2_unique(rec, t + 1, c, o);
    }
}

/// The normalized record never carries two entries with the same key: on a
/// collision the later write replaces the earlier value.
pub proof fn lemma_norm_keys_unique(rec: Seq<FieldV>)
    ensures
        keys_unique(norm_spec(rec)),
{
    let c0 = Seq::new(rec.len(), |q: int| false);
    let o0 = Seq::<(Seq<char>, Seq<char>)>::empty();
    lemma_pass1_unique(rec, 0, c0, o0);
    let s = pass1_from(rec, 0, c0, o0);
    lemma_pass2_unique(rec, 0, s.0, s.1);
}

} // verus!
