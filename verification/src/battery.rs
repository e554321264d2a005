//! The battery report: `key: value` lines gathered into a key-sorted
//! mapping, and the unit normalization of its recognized fields.

use crate::Error;
use crate::num;
use crate::text;
use vstd::prelude::*;
use vstd::string::StrSliceExecFns;
use vstd::string::StringExecFns;

verus! {

/// Whether the key/value separator `": "` stands at position `i`.
pub open spec fn sep_at(l: Seq<char>, i: int) -> bool {
    0 <= i && i + 2 <= l.len() && l[i] == ':' && l[i + 1] == ' '
}

/// Whether the line holds exactly one separator.
pub open spec fn has_unique_sep(l: Seq<char>) -> bool {
    (exists|i: int| sep_at(l, i)) && (forall|i: int, j: int|
        sep_at(l, i) && sep_at(l, j) ==> i == j)
}

/// The position of the line's one separator.
pub open spec fn sep_pos(l: Seq<char>) -> int {
    choose|i: int| sep_at(l, i)
}

/// The pair a line carries: the part before its only `": "`, leading
/// blanks dropped, and the part after it. A line without the separator,
/// or with several, carries no pair and is skipped.
pub open spec fn kv_of(l: Seq<char>) -> Option<(Seq<char>, Seq<char>)> {
    if has_unique_sep(l) {
        Some((text::trim_start(l.take(sep_pos(l))), l.skip(sep_pos(l) + 2)))
    } else {
        None
    }
}

/// The mapping the battery lines build up: a later occurrence of a key
/// overwrites an earlier one.
pub open spec fn battery_map(lines: Seq<Seq<char>>) -> Map<Seq<char>, Seq<char>>
    decreases lines.len(),
{
    if lines.len() == 0 {
        Map::empty()
    } else {
        let m = battery_map(lines.drop_last());
        match kv_of(lines.last()) {
            Some(kv) => m.insert(kv.0, kv.1),
            None => m,
        }
    }
}

/// The key/value view of an entry vector.
pub open spec fn entries_view(es: Seq<(String, String)>) -> Seq<(Seq<char>, Seq<char>)> {
    es.map_values(|e: (String, String)| (e.0@, e.1@))
}

/// Whether the entries' keys are strictly ascending, and so unique.
pub open spec fn sorted_keys(es: Seq<(Seq<char>, Seq<char>)>) -> bool {
    forall|i: int, j: int| 0 <= i < j < es.len() ==> text::lex_lt(es[i].0, es[j].0)
}

/// The mapping an entry sequence holds.
pub open spec fn as_map(es: Seq<(Seq<char>, Seq<char>)>) -> Map<Seq<char>, Seq<char>> {
    Map::new(
        |k: Seq<char>| exists|i: int| 0 <= i < es.len() && es[i].0 == k,
        |k: Seq<char>| es[choose|i: int| 0 <= i < es.len() && es[i].0 == k].1,
    )
}

/// Each entry of a key-sorted vector is what its mapping holds at its key.
pub proof fn lemma_as_map_at(es: Seq<(Seq<char>, Seq<char>)>, i: int)
    requires
        sorted_keys(es),
        0 <= i < es.len(),
    ensures
        as_map(es).contains_key(es[i].0),
        as_map(es)[es[i].0] == es[i].1,
{
    assert(0 <= i < es.len() && es[i].0 == es[i].0);
    let j = choose|j: int| 0 <= j < es.len() && es[j].0 == es[i].0;
    if j < i {
        text::lemma_lex_asymmetric(es[j].0, es[i].0);
    } else if i < j {
        text::lemma_lex_asymmetric(es[i].0, es[j].0);
    }
    assert(j == i);
}

/// Two key-sorted entry vectors holding the same mapping are equal: the
/// key-ordered display form of a report is deterministic.
pub proof fn lemma_sorted_entries_unique(
    a: Seq<(Seq<char>, Seq<char>)>,
    b: Seq<(Seq<char>, Seq<char>)>,
)
    requires
        sorted_keys(a),
        sorted_keys(b),
        as_map(a) == as_map(b),
    ensures
        a == b,
    decreases a.len(),
{
    if a.len() == 0 {
        if b.len() > 0 {
            lemma_as_map_at(b, 0);
            assert(as_map(a).contains_key(b[0].0));
        }
        assert(a =~= b);
    } else if b.len() == 0 {
        lemma_as_map_at(a, 0);
        assert(as_map(b).contains_key(a[0].0));
        assert(a =~= b);
    } else {
        let ha = a[0].0;
        let hb = b[0].0;
        // The two head keys are equal: each map holds the other's head
        // key, and a strictly later position would break the order.
        if ha != hb {
            text::lemma_lex_trichotomy(ha, hb);
            if text::lex_lt(ha, hb) {
                lemma_as_map_at(a, 0);
                assert(as_map(b).contains_key(ha));
                let j = choose|j: int| 0 <= j < b.len() && b[j].0 == ha;
                assert(j > 0);
                assert(text::lex_lt(hb, b[j].0));
                text::lemma_lex_asymmetric(ha, hb);
            } else {
                lemma_as_map_at(b, 0);
                assert(as_map(a).contains_key(hb));
                let j = choose|j: int| 0 <= j < a.len() && a[j].0 == hb;
                assert(j > 0);
                assert(text::lex_lt(ha, a[j].0));
                text::lemma_lex_asymmetric(hb, ha);
            }
        }
        assert(ha == hb);
        lemma_as_map_at(a, 0);
        lemma_as_map_at(b, 0);
        assert(a[0].1 == b[0].1);
        let at = a.drop_first();
        let bt = b.drop_first();
        assert forall|i: int, j: int| 0 <= i < j < at.len() implies text::lex_lt(
            at[i].0,
            at[j].0,
        ) by {
            assert(at[i] == a[i + 1] && at[j] == a[j + 1]);
        }
        assert forall|i: int, j: int| 0 <= i < j < bt.len() implies text::lex_lt(
            bt[i].0,
            bt[j].0,
        ) by {
            assert(bt[i] == b[i + 1] && bt[j] == b[j + 1]);
        }
        assert forall|k: Seq<char>| #[trigger] as_map(at).contains_key(k) == as_map(
            bt,
        ).contains_key(k) by {
            if as_map(at).contains_key(k) {
                let i = choose|i: int| 0 <= i < at.len() && at[i].0 == k;
                assert(a[i + 1].0 == k);
                assert(text::lex_lt(ha, k));
                text::lemma_lex_asymmetric(ha, k);
                assert(as_map(b).contains_key(k));
                let j = choose|j: int| 0 <= j < b.len() && b[j].0 == k;
                assert(j > 0);
                assert(bt[j - 1].0 == k);
                assert(as_map(bt).contains_key(k));
            }
            if as_map(bt).contains_key(k) {
                let i = choose|i: int| 0 <= i < bt.len() && bt[i].0 == k;
                assert(b[i + 1].0 == k);
                assert(text::lex_lt(hb, k));
                text::lemma_lex_asymmetric(hb, k);
                assert(as_map(a).contains_key(k));
                let j = choose|j: int| 0 <= j < a.len() && a[j].0 == k;
                assert(j > 0);
                assert(at[j - 1].0 == k);
                assert(as_map(at).contains_key(k));
            }
        }
        assert forall|k: Seq<char>|
            as_map(at).contains_key(k) implies #[trigger] as_map(at)[k] == as_map(bt)[k] by {
            let i = choose|i: int| 0 <= i < at.len() && at[i].0 == k;
            lemma_as_map_at(at, i);
            assert(a[i + 1].0 == k);
            lemma_as_map_at(a, i + 1);
            let j = choose|j: int| 0 <= j < bt.len() && bt[j].0 == k;
            lemma_as_map_at(bt, j);
            assert(b[j + 1].0 == k);
            lemma_as_map_at(b, j + 1);
        }
        assert(as_map(at) =~= as_map(bt));
        lemma_sorted_entries_unique(at, bt);
        assert forall|i: int| 0 <= i < a.len() implies a[i] == b[i] by {
            if i > 0 {
                assert(at[i - 1] == bt[i - 1]);
            }
        }
        assert(a =~= b);
    }
}

/// Splits a line at its only `": "`.
fn split_kv(line: &str) -> (r: Option<(String, String)>)
    ensures
        match r {
            Some(kv) => kv_of(line@) matches Some(p) && kv.0@ == p.0 && kv.1@ == p.1,
            None => kv_of(line@) is None,
        },
{
    let n = line.unicode_len();
    let mut found: Option<usize> = None;
    let mut i: usize = 0;
    while n > 0 && i < n - 1
        invariant
            i <= n,
            n == line@.len(),
            match found {
                Some(p) => p < i && sep_at(line@, p as int) && forall|j: int|
                    0 <= j < i && j != p ==> !sep_at(line@, j),
                None => forall|j: int| 0 <= j < i ==> !sep_at(line@, j),
            },
        decreases n - i,
    {
        if line.get_char(i) == ':' && line.get_char(i + 1) == ' ' {
            if let Some(p) = found {
                proof {
                    assert(sep_at(line@, p as int));
                    assert(sep_at(line@, i as int));
                    assert(!has_unique_sep(line@));
                }
                return None;
            }
            found = Some(i);
        }
        i += 1;
    }
    proof {
        assert(forall|j: int| sep_at(line@, j) ==> 0 <= j < i);
    }
    match found {
        None => {
            proof {
                assert(!has_unique_sep(line@));
            }
            None
        },
        Some(p) => {
            proof {
                assert(has_unique_sep(line@));
                assert(sep_at(line@, sep_pos(line@)));
                assert(sep_pos(line@) == p as int);
            }
            let key_raw = line.substring_char(0, p);
            let key = text::trim_start_exec(key_raw);
            let value = line.substring_char(p + 2, n);
            proof {
                assert(key_raw@ =~= line@.take(p as int));
                assert(value@ =~= line@.skip(p + 2 as int));
            }
            Some((key, String::from_str(value)))
        },
    }
}

/// Inserts a pair into a key-sorted entry vector, replacing the value at
/// a key that is already present.
fn map_insert(entries: &mut Vec<(String, String)>, key: String, value: String)
    requires
        sorted_keys(entries_view(old(entries)@)),
    ensures
        sorted_keys(entries_view(final(entries)@)),
        as_map(entries_view(final(entries)@)) == as_map(entries_view(old(entries)@)).insert(
            key@,
            value@,
        ),
{
    let ghost ov = entries_view(entries@);
    let mut i: usize = 0;
    while i < entries.len() && text::str_lt(entries[i].0.as_str(), key.as_str())
        invariant
            i <= entries.len(),
            entries@ == old(entries)@,
            ov == entries_view(entries@),
            forall|j: int| 0 <= j < i ==> text::lex_lt(ov[j].0, key@),
        decreases entries.len() - i,
    {
        i += 1;
    }
    let ghost kk = key@;
    let ghost vv = value@;
    let replace = i < entries.len() && text::str_eq(entries[i].0.as_str(), key.as_str());
    if replace {
        let _gone = entries.remove(i);
        entries.insert(i, (key, value));
    } else {
        proof {
            if i < ov.len() {
                text::lemma_lex_trichotomy(kk, ov[i as int].0);
                assert(text::lex_lt(kk, ov[i as int].0));
            }
        }
        entries.insert(i, (key, value));
    }
    let ghost nv = entries_view(entries@);
    proof {
        // The new view: the old entries around position i, with the pair at i.
        if replace {
            assert(nv.len() == ov.len());
            assert(nv[i as int].0 == kk && nv[i as int].1 == vv);
            assert(forall|j: int| 0 <= j < nv.len() && j != i ==> nv[j] == ov[j]);
            assert(kk == ov[i as int].0);
        } else {
            assert(nv.len() == ov.len() + 1);
            assert(nv[i as int].0 == kk && nv[i as int].1 == vv);
            assert(forall|j: int| 0 <= j < i ==> nv[j] == ov[j]);
            assert(forall|j: int| i < j < nv.len() ==> nv[j] == ov[j - 1]);
        }
        // The keys stay strictly ascending.
        assert forall|a: int, b: int| 0 <= a < b < nv.len() implies text::lex_lt(
            nv[a].0,
            nv[b].0,
        ) by {
            if replace {
                assert(text::lex_lt(ov[a].0, ov[b].0));
            } else {
                if a == i {
                    let bb = if b > i { b - 1 } else { b };
                    if ov[bb].0 != ov[i as int].0 && i < ov.len() {
                        text::lemma_lex_transitive(kk, ov[i as int].0, ov[bb].0);
                    }
                } else if b == i {
                    assert(text::lex_lt(nv[a].0, kk));
                } else {
                    let aa = if a > i { a - 1 } else { a };
                    let bb = if b > i { b - 1 } else { b };
                    assert(text::lex_lt(ov[aa].0, ov[bb].0));
                }
            }
        }
        // The mapping gains exactly the one pair.
        assert forall|k: Seq<char>| #[trigger] as_map(nv).contains_key(k)
            == as_map(ov).insert(kk, vv).contains_key(k) by {
            if k == kk {
                assert(nv[i as int].0 == k);
                assert(as_map(nv).contains_key(k));
            } else {
                if as_map(nv).contains_key(k) {
                    let j = choose|j: int| 0 <= j < nv.len() && nv[j].0 == k;
                    assert(j != i);
                    if replace {
                        assert(ov[j].0 == k);
                    } else {
                        let jj = if j > i { j - 1 } else { j };
                        assert(ov[jj].0 == k);
                    }
                    assert(as_map(ov).contains_key(k));
                }
                if as_map(ov).contains_key(k) {
                    let j = choose|j: int| 0 <= j < ov.len() && ov[j].0 == k;
                    if replace {
                        assert(j != i);
                        assert(nv[j].0 == k);
                    } else {
                        let jj = if j >= i { j + 1 } else { j };
                        assert(nv[jj].0 == k);
                    }
                    assert(as_map(nv).contains_key(k));
                }
            }
        }
        assert forall|k: Seq<char>|
            as_map(nv).contains_key(k) implies #[trigger] as_map(nv)[k] == as_map(ov).insert(
            kk,
            vv,
        )[k] by {
            let j = choose|j: int| 0 <= j < nv.len() && nv[j].0 == k;
            lemma_as_map_at(nv, j);
            if k == kk {
                lemma_as_map_at(nv, i as int);
                if j != i {
                    text::lemma_lex_asymmetric(nv[i as int].0, nv[j].0);
                    text::lemma_lex_asymmetric(nv[j].0, nv[i as int].0);
                }
                assert(as_map(nv)[k] == vv);
            } else {
                assert(j != i);
                if replace {
                    lemma_as_map_at(ov, j);
                } else {
                    let jj = if j > i { j - 1 } else { j };
                    lemma_as_map_at(ov, jj);
                }
            }
        }
        assert(as_map(nv) =~= as_map(ov).insert(kk, vv));
    }
}

/// Parses the battery dump response of the bridge tool: the header line
/// is dropped; each further line with exactly one `": "` yields a pair,
/// a later key overwrites an earlier one, and the result is ordered by
/// key for deterministic display.
pub fn parse_battery_report(response: &str) -> (r: Vec<(String, String)>)
    ensures
        sorted_keys(entries_view(r@)),
        as_map(entries_view(r@)) == battery_map(text::spec_lines(response@).drop_first()),
{
    let lines = text::split_lines(response);
    let ghost body = text::spec_lines(response@).drop_first();
    proof {
        text::lemma_split_nonempty(response@, '\n');
        assert(body.take(0) =~= Seq::<Seq<char>>::empty());
    }
    let mut entries: Vec<(String, String)> = Vec::new();
    proof {
        assert(entries_view(entries@) =~= Seq::<(Seq<char>, Seq<char>)>::empty());
        assert(as_map(entries_view(entries@)) =~= Map::<Seq<char>, Seq<char>>::empty());
    }
    let mut i: usize = 1;
    while i < lines.len()
        invariant
            1 <= i <= lines.len(),
            text::views(lines@) == text::spec_lines(response@),
            body == text::spec_lines(response@).drop_first(),
            sorted_keys(entries_view(entries@)),
            as_map(entries_view(entries@)) == battery_map(body.take(i - 1)),
        decreases lines.len() - i,
    {
        let ghost pfx = body.take(i - 1);
        let ghost pfx1 = body.take(i as int);
        proof {
            assert(pfx1.drop_last() =~= pfx);
            assert(pfx1.last() == text::views(lines@)[i as int]);
        }
        let line = &lines[i];
        match split_kv(line.as_str()) {
            Some((k, v)) => {
                map_insert(&mut entries, k, v);
            },
            None => {},
        }
        i += 1;
    }
    proof {
        assert(body.take(i - 1) =~= body);
    }
    entries
}

/// The `level` rule: with the scale token `"100"` the raw value only
/// gains a percent sign; otherwise value and scale must be decimal
/// numbers, the scale positive, and the level becomes the rounded
/// percentage `value / scale * 100`.
pub open spec fn level_str(v: Seq<char>, scale: Seq<char>) -> Option<Seq<char>> {
    if scale == "100"@ {
        Some(v + " %"@)
    } else if num::is_u64_digits(v) && num::is_u64_digits(scale) && num::digits_val(scale) > 0 {
        Some(
            num::dec_digits(
                num::round_div(100 * num::digits_val(v), num::digits_val(scale)) as nat,
            ) + " %"@,
        )
    } else {
        None
    }
}

/// A raw value as a signed decimal number: digits, or a minus sign
/// followed by digits.
pub open spec fn signed_val(v: Seq<char>) -> Option<int> {
    if num::is_u64_digits(v) {
        Some(num::digits_val(v))
    } else if v.len() > 1 && v[0] == '-' && num::is_u64_digits(v.skip(1)) {
        Some(-num::digits_val(v.skip(1)))
    } else {
        None
    }
}

/// The `temperature` rule: the raw value is tenths of a degree, shown
/// with one decimal place.
pub open spec fn temperature_str(v: Seq<char>) -> Option<Seq<char>> {
    match signed_val(v) {
        Some(t) => {
            let sgn: Seq<char> = if t < 0 {
                seq!['-']
            } else {
                Seq::empty()
            };
            let m = if t < 0 {
                -t
            } else {
                t
            };
            Some(sgn + num::tenths_str(m) + " \u{b0}C"@)
        },
        None => None,
    }
}

/// The `voltage` rule: the raw value is millivolts, shown as volts with
/// three decimal places.
pub open spec fn voltage_str(v: Seq<char>) -> Option<Seq<char>> {
    if num::is_u64_digits(v) {
        Some(num::thousandths_str(num::digits_val(v)) + " V"@)
    } else {
        None
    }
}

/// The `Charge counter` rule: only the first four characters of the raw
/// value count, read as an unsigned decimal number.
pub open spec fn charge_counter_str(v: Seq<char>) -> Option<Seq<char>> {
    if v.len() >= 4 && num::is_u64_digits(v.take(4)) {
        Some(num::dec_digits(num::digits_val(v.take(4)) as nat) + " mAh"@)
    } else {
        None
    }
}

/// The `Max charging current` rule: the raw value is micro-amps; below
/// one amp it is shown as whole milliamps, else as amps with three
/// decimal places.
pub open spec fn current_str(v: Seq<char>) -> Option<Seq<char>> {
    if num::is_u64_digits(v) {
        let uv = num::digits_val(v);
        if uv < 1000000 {
            Some(num::dec_digits(num::round_div(uv, 1000) as nat) + " mA"@)
        } else {
            Some(num::thousandths_str(num::round_div(uv, 1000)) + " A"@)
        }
    } else {
        None
    }
}

/// The `Max charging voltage` rule: the raw value is micro-volts, shown
/// as volts with one decimal place.
pub open spec fn charging_voltage_str(v: Seq<char>) -> Option<Seq<char>> {
    if num::is_u64_digits(v) {
        Some(num::tenths_str(num::round_div(num::digits_val(v), 100000)) + " V"@)
    } else {
        None
    }
}

/// The display value of one field: a recognized key gets its unit rule,
/// any other key keeps its raw value untouched.
pub open spec fn normalize_field(key: Seq<char>, v: Seq<char>, scale: Seq<char>) -> Option<
    Seq<char>,
> {
    if key == "level"@ {
        level_str(v, scale)
    } else if key == "temperature"@ {
        temperature_str(v)
    } else if key == "voltage"@ {
        voltage_str(v)
    } else if key == "Charge counter"@ {
        charge_counter_str(v)
    } else if key == "Max charging current"@ {
        current_str(v)
    } else if key == "Max charging voltage"@ {
        charging_voltage_str(v)
    } else {
        Some(v)
    }
}

/// The scale a report names, `"100"` when it names none.
pub open spec fn scale_of(es: Seq<(Seq<char>, Seq<char>)>) -> Seq<char> {
    if as_map(es).contains_key("scale"@) {
        as_map(es)["scale"@]
    } else {
        "100"@
    }
}

/// The entries without the scale field.
pub open spec fn remove_scale(es: Seq<(Seq<char>, Seq<char>)>) -> Seq<(Seq<char>, Seq<char>)>
    decreases es.len(),
{
    if es.len() == 0 {
        Seq::empty()
    } else {
        let r = remove_scale(es.drop_last());
        if es.last().0 == "scale"@ {
            r
        } else {
            r.push(es.last())
        }
    }
}

/// Removing the scale entry keeps the keys strictly ascending, and every
/// kept entry is one of the given entries.
proof fn lemma_remove_scale_sorted(es: Seq<(Seq<char>, Seq<char>)>)
    requires
        sorted_keys(es),
    ensures
        sorted_keys(remove_scale(es)),
        forall|i: int|
            0 <= i < remove_scale(es).len() ==> exists|j: int|
                0 <= j < es.len() && #[trigger] remove_scale(es)[i] == es[j],
    decreases es.len(),
{
    if es.len() > 0 {
        assert(sorted_keys(es.drop_last()));
        lemma_remove_scale_sorted(es.drop_last());
        let r0 = remove_scale(es.drop_last());
        assert forall|i: int| 0 <= i < remove_scale(es).len() implies exists|j: int|
            0 <= j < es.len() && #[trigger] remove_scale(es)[i] == es[j] by {
            if i < r0.len() {
                let j = choose|j: int| 0 <= j < es.drop_last().len() && r0[i] == es.drop_last()[j];
                assert(remove_scale(es)[i] == es[j]);
            } else {
                assert(remove_scale(es)[i] == es[es.len() - 1]);
            }
        }
        assert forall|a: int, b: int| 0 <= a < b < remove_scale(es).len() implies text::lex_lt(
            remove_scale(es)[a].0,
            remove_scale(es)[b].0,
        ) by {
            if b >= r0.len() {
                let j = choose|j: int| 0 <= j < es.drop_last().len() && r0[a] == es.drop_last()[j];
                assert(text::lex_lt(es[j].0, es.last().0));
            }
        }
    }
}

/// The normalized entries, or the first key in order whose raw value its
/// rule refuses.
pub open spec fn normalize_entries(es: Seq<(Seq<char>, Seq<char>)>, scale: Seq<char>) -> Result<
    Seq<(Seq<char>, Seq<char>)>,
    Seq<char>,
>
    decreases es.len(),
{
    if es.len() == 0 {
        Ok(Seq::empty())
    } else {
        match normalize_entries(es.drop_last(), scale) {
            Ok(t) => match normalize_field(es.last().0, es.last().1, scale) {
                Some(nv) => Ok(t.push((es.last().0, nv))),
                None => Err(es.last().0),
            },
            Err(k) => Err(k),
        }
    }
}

/// Normalization keeps each entry's key in place.
proof fn lemma_normalize_keys(es: Seq<(Seq<char>, Seq<char>)>, scale: Seq<char>)
    requires
        normalize_entries(es, scale) is Ok,
    ensures
        match normalize_entries(es, scale) {
            Ok(out) => out.len() == es.len() && forall|i: int|
                0 <= i < es.len() ==> out[i].0 == es[i].0,
            Err(_) => true,
        },
    decreases es.len(),
{
    if es.len() > 0 {
        lemma_normalize_keys(es.drop_last(), scale);
    }
}

/// Once a prefix of the entries is refused, the rest do not change the
/// outcome.
proof fn lemma_normalize_persists(es: Seq<(Seq<char>, Seq<char>)>, scale: Seq<char>, k: int)
    requires
        0 <= k <= es.len(),
        normalize_entries(remove_scale(es.take(k)), scale) is Err,
    ensures
        normalize_entries(remove_scale(es), scale) == normalize_entries(
            remove_scale(es.take(k)),
            scale,
        ),
    decreases es.len() - k,
{
    if k == es.len() {
        assert(es.take(k) =~= es);
    } else {
        let t1 = es.take(k + 1);
        assert(t1.drop_last() =~= es.take(k));
        let r = remove_scale(es.take(k));
        if t1.last().0 == "scale"@ {
            assert(remove_scale(t1) == r);
        } else {
            assert(remove_scale(t1) == r.push(t1.last()));
            assert(r.push(t1.last()).drop_last() =~= r);
        }
        assert(normalize_entries(remove_scale(t1), scale) == normalize_entries(
            remove_scale(es.take(k)),
            scale,
        ));
        lemma_normalize_persists(es, scale, k + 1);
    }
}

/// The whole normalization of a key-sorted report: the scale read and
/// removed, every remaining field rewritten by its rule.
pub open spec fn spec_normalized(es: Seq<(Seq<char>, Seq<char>)>) -> Result<
    Seq<(Seq<char>, Seq<char>)>,
    Seq<char>,
> {
    normalize_entries(remove_scale(es), scale_of(es))
}

/// Applies a recognized field's unit rule to its raw value.
fn normalize_value(key: &str, v: &str, scale: &str) -> (r: Option<String>)
    ensures
        match r {
            Some(s) => normalize_field(key@, v@, scale@) matches Some(nv) && s@ == nv,
            None => normalize_field(key@, v@, scale@) is None,
        },
{
    if text::str_eq(key, "level") {
        if text::str_eq(scale, "100") {
            let mut s = String::from_str(v);
            s.append(" %");
            Some(s)
        } else {
            let pv = num::parse_u64(v);
            let ps = num::parse_u64(scale);
            match (pv, ps) {
                (Some(val), Some(sc)) => {
                    if sc == 0 {
                        None
                    } else {
                        let m = num::round_div_u128(100 * (val as u128), sc as u128);
                        let mut s = num::u128_to_string(m);
                        s.append(" %");
                        Some(s)
                    }
                },
                _ => None,
            }
        }
    } else if text::str_eq(key, "temperature") {
        let n = v.unicode_len();
        let neg = n > 1 && v.get_char(0) == '-';
        let mag: Option<u64> = if neg {
            let rest = v.substring_char(1, n);
            proof {
                assert(rest@ =~= v@.skip(1));
            }
            num::parse_u64(rest)
        } else {
            num::parse_u64(v)
        };
        proof {
            if neg {
                assert(v@[0] == '-');
                assert(!num::all_digits(v@));
            }
        }
        match mag {
            Some(m) => {
                let mut s: String = if neg && m > 0 {
                    proof {
                        reveal_strlit("-");
                    }
                    String::from_str("-")
                } else {
                    String::new()
                };
                let t = num::tenths_exec(m as u128);
                s.append(t.as_str());
                s.append(" \u{b0}C");
                proof {
                    reveal_strlit("-");
                    let tv = signed_val(v@)->Some_0;
                    let sgn: Seq<char> = if tv < 0 {
                        seq!['-']
                    } else {
                        Seq::<char>::empty()
                    };
                    if neg && m > 0 {
                        assert("-"@ =~= seq!['-']);
                    }
                    assert(s@ =~= sgn + num::tenths_str(m as int) + " \u{b0}C"@);
                }
                Some(s)
            },
            None => None,
        }
    } else if text::str_eq(key, "voltage") {
        match num::parse_u64(v) {
            Some(val) => {
                let mut s = num::thousandths_exec(val as u128);
                s.append(" V");
                Some(s)
            },
            None => None,
        }
    } else if text::str_eq(key, "Charge counter") {
        let n = v.unicode_len();
        if n < 4 {
            None
        } else {
            let first4 = v.substring_char(0, 4);
            proof {
                assert(first4@ =~= v@.take(4));
            }
            match num::parse_u64(first4) {
                Some(cv) => {
                    let mut s = num::u128_to_string(cv as u128);
                    s.append(" mAh");
                    Some(s)
                },
                None => None,
            }
        }
    } else if text::str_eq(key, "Max charging current") {
        match num::parse_u64(v) {
            Some(uv) => {
                let m = num::round_div_u128(uv as u128, 1000);
                if uv < 1000000 {
                    let mut s = num::u128_to_string(m);
                    s.append(" mA");
                    Some(s)
                } else {
                    let mut s = num::thousandths_exec(m);
                    s.append(" A");
                    Some(s)
                }
            },
            None => None,
        }
    } else if text::str_eq(key, "Max charging voltage") {
        match num::parse_u64(v) {
            Some(uv) => {
                let m = num::round_div_u128(uv as u128, 100000);
                let mut s = num::tenths_exec(m);
                s.append(" V");
                Some(s)
            },
            None => None,
        }
    } else {
        Some(String::from_str(v))
    }
}

/// Normalizes a parsed report as a pure transform: the scale field is
/// read (default `"100"`) and removed, each recognized field is
/// rewritten by its unit rule, and every other field passes through
/// untouched. The first field in key order whose raw value its rule
/// refuses is reported as malformed.
pub fn format_values(entries: &Vec<(String, String)>) -> (r: Result<Vec<(String, String)>, Error>)
    requires
        sorted_keys(entries_view(entries@)),
    ensures
        match spec_normalized(entries_view(entries@)) {
            Ok(out) => r matches Ok(v) && entries_view(v@) == out && sorted_keys(
                entries_view(v@),
            ),
            Err(k) => r matches Err(Error::MalformedFieldValue(t)) && t@ == k,
        },
{
    let ghost ev = entries_view(entries@);
    let mut idx: usize = 0;
    while idx < entries.len()
        invariant
            idx <= entries.len(),
            ev == entries_view(entries@),
            forall|j: int| 0 <= j < idx ==> ev[j].0 != "scale"@,
        ensures
            idx <= entries@.len(),
            ev == entries_view(entries@),
            idx < entries@.len() ==> ev[idx as int].0 == "scale"@,
            idx == entries@.len() ==> forall|j: int| 0 <= j < ev.len() ==> ev[j].0 != "scale"@,
        decreases entries.len() - idx,
    {
        if text::str_eq(entries[idx].0.as_str(), "scale") {
            break;
        }
        idx += 1;
    }
    let scale: String = if idx < entries.len() {
        proof {
            lemma_as_map_at(ev, idx as int);
        }
        entries[idx].1.clone()
    } else {
        proof {
            if as_map(ev).contains_key("scale"@) {
                let j = choose|j: int| 0 <= j < ev.len() && ev[j].0 == "scale"@;
                assert(ev[j].0 != "scale"@);
            }
        }
        String::from_str("100")
    };
    let ghost sc = scale_of(ev);
    proof {
        assert(scale@ == sc);
    }
    let mut out: Vec<(String, String)> = Vec::new();
    proof {
        assert(ev.take(0) =~= Seq::<(Seq<char>, Seq<char>)>::empty());
        assert(entries_view(out@) =~= Seq::<(Seq<char>, Seq<char>)>::empty());
        assert(remove_scale(ev.take(0)) =~= Seq::<(Seq<char>, Seq<char>)>::empty());
    }
    let mut i: usize = 0;
    while i < entries.len()
        invariant
            i <= entries.len(),
            ev == entries_view(entries@),
            sorted_keys(ev),
            sc == scale_of(ev),
            scale@ == sc,
            normalize_entries(remove_scale(ev.take(i as int)), sc) == Ok::<
                Seq<(Seq<char>, Seq<char>)>,
                Seq<char>,
            >(entries_view(out@)),
        decreases entries.len() - i,
    {
        let ghost pfx = ev.take(i as int);
        let ghost pfx1 = ev.take(i + 1 as int);
        proof {
            assert(pfx1.drop_last() =~= pfx);
            assert(pfx1.last() == ev[i as int]);
        }
        let e = &entries[i];
        proof {
            assert(e.0@ == ev[i as int].0 && e.1@ == ev[i as int].1);
        }
        if text::str_eq(e.0.as_str(), "scale") {
            proof {
                assert(remove_scale(pfx1) == remove_scale(pfx));
            }
        } else {
            match normalize_value(e.0.as_str(), e.1.as_str(), scale.as_str()) {
                Some(nv) => {
                    let ghost ovv = entries_view(out@);
                    let ghost nvv = nv@;
                    out.push((e.0.clone(), nv));
                    proof {
                        assert(entries_view(out@) =~= ovv.push((ev[i as int].0, nvv)));
                        assert(remove_scale(pfx1) == remove_scale(pfx).push(ev[i as int]));
                        assert(remove_scale(pfx).push(ev[i as int]).drop_last() =~= remove_scale(
                            pfx,
                        ));
                        assert(normalize_entries(remove_scale(pfx1), sc) == Ok::<
                            Seq<(Seq<char>, Seq<char>)>,
                            Seq<char>,
                        >(entries_view(out@)));
                    }
                },
                None => {
                    proof {
                        assert(remove_scale(pfx1) == remove_scale(pfx).push(ev[i as int]));
                        assert(remove_scale(pfx).push(ev[i as int]).drop_last() =~= remove_scale(
                            pfx,
                        ));
                        assert(normalize_entries(remove_scale(pfx1), sc) == Err::<
                            Seq<(Seq<char>, Seq<char>)>,
                            Seq<char>,
                        >(ev[i as int].0));
                        lemma_normalize_persists(ev, sc, i + 1);
                    }
                    return Err(Error::MalformedFieldValue(e.0.clone()));
                },
            }
        }
        i += 1;
    }
    proof {
        assert(ev.take(entries@.len() as int) =~= ev);
        lemma_remove_scale_sorted(ev);
        lemma_normalize_keys(remove_scale(ev), sc);
        let outv = entries_view(out@);
        assert forall|a: int, b: int| 0 <= a < b < outv.len() implies text::lex_lt(
            outv[a].0,
            outv[b].0,
        ) by {
            assert(outv[a].0 == remove_scale(ev)[a].0);
            assert(outv[b].0 == remove_scale(ev)[b].0);
        }
    }
    Ok(out)
}

/// Whether `raw` is the key-sorted entry form of a battery response's
/// mapping.
pub open spec fn is_report_of(raw: Seq<(Seq<char>, Seq<char>)>, s: Seq<char>) -> bool {
    sorted_keys(raw) && as_map(raw) == battery_map(text::spec_lines(s).drop_first())
}

/// Parses the battery dump and then normalizes it: each recognized field
/// is transformed exactly once per parsed report.
pub fn get_battery_info(response: &str) -> (r: Result<Vec<(String, String)>, Error>)
    ensures
        exists|raw: Seq<(Seq<char>, Seq<char>)>|
            #[trigger] is_report_of(raw, response@) && match spec_normalized(raw) {
                Ok(out) => r matches Ok(v) && entries_view(v@) == out,
                Err(k) => r matches Err(Error::MalformedFieldValue(t)) && t@ == k,
            },
{
    let entries = parse_battery_report(response);
    let ghost raw = entries_view(entries@);
    proof {
        assert(is_report_of(raw, response@));
    }
    let r = format_values(&entries);
    proof {
        assert(is_report_of(raw, response@) && match spec_normalized(raw) {
            Ok(out) => r matches Ok(v) && entries_view(v@) == out,
            Err(k) => r matches Err(Error::MalformedFieldValue(t)) && t@ == k,
        });
    }
    r
}

} // verus!
