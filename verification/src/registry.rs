//! The registry: a name-sorted map of all known interfaces, the selected
//! interface, and the global secret-reveal flag, together with the
//! reconciliation of parsed live interfaces with configured-but-down ones.

use vstd::prelude::*;
use vstd::slice::slice_index_get;
use crate::model::{default_iface_view, IfaceView, WgInterface};
use crate::parse::{
    lemma_parse_entries_enabled, lines_of, parse_dump, parse_dump_spec, ParseError,
};
use crate::render::iface_text;
use crate::text::{lemma_lex_lt_asymm, lemma_lex_lt_connected, lemma_lex_lt_trans, lex_lt, str_eq, str_lt};

verus! {

/// Entries strictly ascending by name: keys unique, listing deterministic.
pub open spec fn entries_wf(s: Seq<(Seq<char>, IfaceView)>) -> bool {
    forall|i: int, j: int| 0 <= i < j < s.len() ==> lex_lt(s[i].0, s[j].0)
}

/// The map an entry sequence denotes; a later entry with the same name
/// overrides an earlier one.
pub open spec fn entries_map(s: Seq<(Seq<char>, IfaceView)>) -> Map<Seq<char>, IfaceView>
    decreases s.len(),
{
    if s.len() == 0 {
        Map::<Seq<char>, IfaceView>::empty()
    } else {
        entries_map(s.drop_last()).insert(s.last().0, s.last().1)
    }
}

/// A key is in the map exactly when some entry carries it.
pub proof fn lemma_entries_map_domain(s: Seq<(Seq<char>, IfaceView)>, k: Seq<char>)
    ensures
        entries_map(s).contains_key(k) <==> exists|i: int| 0 <= i < s.len() && s[i].0 == k,
    decreases s.len(),
{
    if s.len() > 0 {
        lemma_entries_map_domain(s.drop_last(), k);
        if s.last().0 == k {
            assert(s[s.len() - 1].0 == k);
        } else if entries_map(s).contains_key(k) {
            let i = choose|i: int| 0 <= i < s.drop_last().len() && s.drop_last()[i].0 == k;
            assert(s[i].0 == k);
        } else if exists|i: int| 0 <= i < s.len() && s[i].0 == k {
            let i = choose|i: int| 0 <= i < s.len() && s[i].0 == k;
            assert(s.drop_last()[i].0 == k);
        }
    }
}

/// In a well-formed sequence each entry is visible in the map unchanged.
pub proof fn lemma_entries_map_index(s: Seq<(Seq<char>, IfaceView)>, i: int)
    requires
        entries_wf(s),
        0 <= i < s.len(),
    ensures
        entries_map(s).contains_key(s[i].0),
        entries_map(s)[s[i].0] == s[i].1,
    decreases s.len(),
{
    if i == s.len() - 1 {
    } else {
        assert(entries_wf(s.drop_last()));
        lemma_entries_map_index(s.drop_last(), i);
        assert(lex_lt(s[i].0, s.last().0));
        lemma_lex_lt_asymm(s[i].0, s.last().0);
        assert(s.drop_last()[i] == s[i]);
    }
}

/// Dropping the last (greatest) entry of a well-formed sequence removes
/// exactly its key from the map.
pub proof fn lemma_entries_map_drop_last(s: Seq<(Seq<char>, IfaceView)>)
    requires
        entries_wf(s),
        s.len() > 0,
    ensures
        entries_map(s.drop_last()) == entries_map(s).remove(s.last().0),
{
    let k = s.last().0;
    lemma_entries_map_domain(s.drop_last(), k);
    if entries_map(s.drop_last()).contains_key(k) {
        let i = choose|i: int| 0 <= i < s.drop_last().len() && s.drop_last()[i].0 == k;
        assert(lex_lt(s[i].0, k));
        lemma_lex_lt_asymm(s[i].0, k);
        assert(false);
    }
    assert(entries_map(s.drop_last()) =~= entries_map(s).remove(k));
}

/// Two well-formed entry sequences denoting the same map are identical:
/// the sorted representation of an interface map is unique, so any two
/// refreshes from the same dump and configuration yield identical
/// registry contents.
pub proof fn lemma_sorted_entries_unique(a: Seq<(Seq<char>, IfaceView)>, b: Seq<(Seq<char>, IfaceView)>)
    requires
        entries_wf(a),
        entries_wf(b),
        entries_map(a) == entries_map(b),
    ensures
        a == b,
    decreases a.len(),
{
    if a.len() == 0 && b.len() == 0 {
        assert(a =~= b);
    } else if a.len() == 0 {
        lemma_entries_map_index(b, b.len() - 1);
        lemma_entries_map_domain(a, b.last().0);
    } else if b.len() == 0 {
        lemma_entries_map_index(a, a.len() - 1);
        lemma_entries_map_domain(b, a.last().0);
    } else {
        let ka = a.last().0;
        let kb = b.last().0;
        if ka != kb {
            lemma_entries_map_index(a, a.len() - 1);
            lemma_entries_map_index(b, b.len() - 1);
            lemma_entries_map_domain(b, ka);
            let i = choose|i: int| 0 <= i < b.len() && b[i].0 == ka;
            assert(i < b.len() - 1);
            assert(lex_lt(ka, kb));
            lemma_entries_map_domain(a, kb);
            let j = choose|j: int| 0 <= j < a.len() && a[j].0 == kb;
            assert(j < a.len() - 1);
            assert(lex_lt(kb, ka));
            lemma_lex_lt_asymm(ka, kb);
            assert(false);
        }
        lemma_entries_map_index(a, a.len() - 1);
        lemma_entries_map_index(b, b.len() - 1);
        assert(a.last().1 == b.last().1);
        lemma_entries_map_drop_last(a);
        lemma_entries_map_drop_last(b);
        assert forall|i: int, j: int|
            0 <= i < j < a.drop_last().len() implies lex_lt(
            a.drop_last()[i].0,
            a.drop_last()[j].0,
        ) by {
            assert(a.drop_last()[i] == a[i]);
            assert(a.drop_last()[j] == a[j]);
        }
        assert forall|i: int, j: int|
            0 <= i < j < b.drop_last().len() implies lex_lt(
            b.drop_last()[i].0,
            b.drop_last()[j].0,
        ) by {
            assert(b.drop_last()[i] == b[i]);
            assert(b.drop_last()[j] == b[j]);
        }
        lemma_sorted_entries_unique(a.drop_last(), b.drop_last());
        assert forall|i: int| 0 <= i < a.len() implies a[i] == b[i] by {
            if i < a.len() - 1 {
                assert(a.drop_last()[i] == b.drop_last()[i]);
            } else {
                assert(a.last() == b.last());
            }
        }
        assert(a =~= b);
    }
}

/// Inserting an entry at its sorted position inserts its key in the map.
pub proof fn lemma_entries_map_insert_at(
    s: Seq<(Seq<char>, IfaceView)>,
    k: int,
    e: (Seq<char>, IfaceView),
)
    requires
        entries_wf(s),
        0 <= k <= s.len(),
        forall|i: int| 0 <= i < k ==> lex_lt(s[i].0, e.0),
        forall|j: int| k <= j < s.len() ==> lex_lt(e.0, s[j].0),
    ensures
        entries_wf(s.insert(k, e)),
        entries_map(s.insert(k, e)) == entries_map(s).insert(e.0, e.1),
    decreases s.len(),
{
    let t = s.insert(k, e);
    assert forall|i: int, j: int| 0 <= i < j < t.len() implies lex_lt(t[i].0, t[j].0) by {
        if i < k && j < k {
            assert(t[i] == s[i] && t[j] == s[j]);
        } else if i < k && j == k {
            assert(t[i] == s[i]);
        } else if i < k && j > k {
            assert(t[i] == s[i] && t[j] == s[j - 1]);
        } else if i == k && j > k {
            assert(t[j] == s[j - 1]);
        } else if i > k && j > k {
            assert(t[i] == s[i - 1] && t[j] == s[j - 1]);
        }
    }
    if k == s.len() {
        assert(t.drop_last() =~= s);
        assert(t.last() == e);
    } else {
        let sd = s.drop_last();
        assert(entries_wf(sd)) by {
            assert forall|i: int, j: int| 0 <= i < j < sd.len() implies lex_lt(
                sd[i].0,
                sd[j].0,
            ) by {
                assert(sd[i] == s[i] && sd[j] == s[j]);
            }
        }
        assert forall|i: int| 0 <= i < k implies lex_lt(sd[i].0, e.0) by {
            assert(sd[i] == s[i]);
        }
        assert forall|j: int| k <= j < sd.len() implies lex_lt(e.0, sd[j].0) by {
            assert(sd[j] == s[j]);
        }
        lemma_entries_map_insert_at(sd, k, e);
        assert(t.drop_last() =~= sd.insert(k, e));
        assert(t.last() == s.last());
        lemma_lex_lt_asymm(e.0, s.last().0);
        assert(entries_map(sd).insert(e.0, e.1).insert(s.last().0, s.last().1) =~= entries_map(
            sd,
        ).insert(s.last().0, s.last().1).insert(e.0, e.1));
    }
}

/// Overwriting the entry that carries a key overwrites that key's value.
pub proof fn lemma_entries_map_update_at(
    s: Seq<(Seq<char>, IfaceView)>,
    k: int,
    e: (Seq<char>, IfaceView),
)
    requires
        entries_wf(s),
        0 <= k < s.len(),
        s[k].0 == e.0,
    ensures
        entries_wf(s.update(k, e)),
        entries_map(s.update(k, e)) == entries_map(s).insert(e.0, e.1),
    decreases s.len(),
{
    let t = s.update(k, e);
    assert forall|i: int, j: int| 0 <= i < j < t.len() implies lex_lt(t[i].0, t[j].0) by {
        assert(t[i].0 == s[i].0 && t[j].0 == s[j].0);
    }
    if k == s.len() - 1 {
        assert(t.drop_last() =~= s.drop_last());
        assert(t.last() == e);
        assert(entries_map(s.drop_last()).insert(s.last().0, s.last().1).insert(e.0, e.1)
            =~= entries_map(s.drop_last()).insert(e.0, e.1));
    } else {
        let sd = s.drop_last();
        assert(entries_wf(sd)) by {
            assert forall|i: int, j: int| 0 <= i < j < sd.len() implies lex_lt(
                sd[i].0,
                sd[j].0,
            ) by {
                assert(sd[i] == s[i] && sd[j] == s[j]);
            }
        }
        assert(sd[k] == s[k]);
        lemma_entries_map_update_at(sd, k, e);
        assert(t.drop_last() =~= sd.update(k, e));
        assert(t.last() == s.last());
        assert(lex_lt(s[k].0, s.last().0));
        lemma_lex_lt_asymm(s[k].0, s.last().0);
        assert(entries_map(sd).insert(e.0, e.1).insert(s.last().0, s.last().1) =~= entries_map(
            sd,
        ).insert(s.last().0, s.last().1).insert(e.0, e.1));
    }
}

/// Puts one entry at its place in a sorted entry vector, replacing the
/// entry of the same name if one is there.
#[verifier::loop_isolation(false)]
fn insert_entry(v: &mut Vec<(String, WgInterface)>, name: String, iface: WgInterface)
    requires
        entries_wf(old(v).deep_view()),
    ensures
        entries_wf(final(v).deep_view()),
        entries_map(final(v).deep_view()) == entries_map(old(v).deep_view()).insert(
            name@,
            iface@,
        ),
{
    let ghost nm = name@;
    let ghost iv = iface@;
    let ghost s = v.deep_view();
    let n = v.len();
    let mut k: usize = 0;
    while k < n
        invariant
            0 <= k <= n,
            n == v.len(),
            v.deep_view() == s,
            forall|i: int| 0 <= i < k ==> lex_lt(s[i].0, nm),
        decreases n - k,
    {
        let entry = slice_index_get(v.as_slice(), k);
        proof {
            assert(entry.0@ == s[k as int].0);
        }
        if !str_lt(entry.0.as_str(), name.as_str()) {
            if str_eq(entry.0.as_str(), name.as_str()) {
                v.set(k, (name, iface));
                proof {
                    assert(v.deep_view() =~= s.update(k as int, (nm, iv)));
                    lemma_entries_map_update_at(s, k as int, (nm, iv));
                }
                return ;
            }
            proof {
                lemma_lex_lt_connected(nm, s[k as int].0);
                assert(lex_lt(nm, s[k as int].0));
                assert forall|j: int| k <= j < n implies lex_lt(nm, s[j].0) by {
                    if j > k {
                        assert(lex_lt(s[k as int].0, s[j].0));
                        lemma_lex_lt_trans(nm, s[k as int].0, s[j].0);
                    }
                }
                lemma_entries_map_insert_at(s, k as int, (nm, iv));
            }
            v.insert(k, (name, iface));
            proof {
                assert(v.deep_view() =~= s.insert(k as int, (nm, iv)));
            }
            return ;
        }
        k += 1;
    }
    proof {
        lemma_entries_map_insert_at(s, n as int, (nm, iv));
    }
    v.push((name, iface));
    proof {
        assert(v.deep_view() =~= s.insert(n as int, (nm, iv)));
    }
}

/// Whether some entry of `v` carries `name`.
#[verifier::loop_isolation(false)]
fn contains_name(v: &Vec<(String, WgInterface)>, name: &str) -> (r: bool)
    ensures
        r == entries_map(v.deep_view()).contains_key(name@),
{
    let n = v.len();
    let mut k: usize = 0;
    while k < n
        invariant
            0 <= k <= n,
            forall|i: int| 0 <= i < k ==> v.deep_view()[i].0 != name@,
        decreases n - k,
    {
        let entry = slice_index_get(v.as_slice(), k);
        proof {
            assert(entry.0@ == v.deep_view()[k as int].0);
        }
        if str_eq(entry.0.as_str(), name) {
            proof {
                lemma_entries_map_domain(v.deep_view(), name@);
            }
            return true;
        }
        k += 1;
    }
    proof {
        lemma_entries_map_domain(v.deep_view(), name@);
    }
    false
}

/// A value of the entry map is the value of one of its entries.
pub proof fn lemma_entries_map_values(s: Seq<(Seq<char>, IfaceView)>, k: Seq<char>)
    requires
        entries_map(s).contains_key(k),
    ensures
        exists|i: int| 0 <= i < s.len() && s[i].0 == k && s[i].1 == entries_map(s)[k],
    decreases s.len(),
{
    if s.len() > 0 {
        if s.last().0 == k {
            assert(s[s.len() - 1].0 == k && s[s.len() - 1].1 == entries_map(s)[k]);
        } else {
            lemma_entries_map_values(s.drop_last(), k);
            let i = choose|i: int|
                0 <= i < s.drop_last().len() && s.drop_last()[i].0 == k && s.drop_last()[i].1
                    == entries_map(s.drop_last())[k];
            assert(s[i].0 == k && s[i].1 == entries_map(s)[k]);
        }
    }
}

/// Two registries holding the same interface map hold identical entry
/// sequences: a successful refresh pins the map to a function of the dump
/// and configuration alone, so refreshing twice with no underlying change
/// yields bitwise-identical contents and bitwise-identical rendering.
pub proof fn lemma_refresh_deterministic(a: &InterfacesMap, b: &InterfacesMap)
    requires
        a.wf(),
        b.wf(),
        a.map_view() == b.map_view(),
    ensures
        a.entries() == b.entries(),
{
    lemma_sorted_entries_unique(a.entries(), b.entries());
}

/// The base name of a configuration file: its name with the fixed ".conf"
/// suffix stripped; nothing for any other file.
pub open spec fn conf_base(name: Seq<char>) -> Option<Seq<char>> {
    if name.len() >= 5 && name.subrange(name.len() - 5, name.len() as int) == ".conf"@ {
        Option::Some(name.subrange(0, name.len() - 5))
    } else {
        Option::None
    }
}

fn conf_base_str(name: &str) -> (r: Option<String>)
    ensures
        match r {
            Option::Some(b) => conf_base(name@) == Option::Some(b@),
            Option::None => conf_base(name@) is None,
        },
{
    let n = name.unicode_len();
    if n < 5 {
        return Option::None;
    }
    let suffix = name.substring_char(n - 5, n);
    if !str_eq(suffix, ".conf") {
        return Option::None;
    }
    let base = name.substring_char(0, n - 5);
    Option::Some(String::from_str(base))
}

/// The reconciled interface map: the live entries of the dump, plus a
/// default disabled entry for every configuration file whose base name
/// the dump did not report. A live entry is never overwritten.
pub open spec fn merged_map(
    parsed: Seq<(Seq<char>, IfaceView)>,
    confs: Seq<Seq<char>>,
) -> Map<Seq<char>, IfaceView>
    decreases confs.len(),
{
    if confs.len() == 0 {
        entries_map(parsed)
    } else {
        let m = merged_map(parsed, confs.drop_last());
        match conf_base(confs.last()) {
            Option::Some(b) => {
                if entries_map(parsed).contains_key(b) {
                    m
                } else {
                    m.insert(b, default_iface_view())
                }
            },
            Option::None => m,
        }
    }
}

/// Down-interface invariant: when every parsed entry is enabled, every
/// disabled interface of the reconciled map carries the default record —
/// empty keys, port zero, no peers.
pub proof fn lemma_merged_disabled_default(
    parsed: Seq<(Seq<char>, IfaceView)>,
    confs: Seq<Seq<char>>,
    k: Seq<char>,
)
    requires
        forall|j: int| 0 <= j < parsed.len() ==> (#[trigger] parsed[j]).1.enabled,
        merged_map(parsed, confs).contains_key(k),
        !merged_map(parsed, confs)[k].enabled,
    ensures
        merged_map(parsed, confs)[k] == default_iface_view(),
    decreases confs.len(),
{
    if confs.len() == 0 {
        lemma_entries_map_values(parsed, k);
    } else {
        match conf_base(confs.last()) {
            Option::Some(b) => {
                if !entries_map(parsed).contains_key(b) && b == k {
                } else {
                    lemma_merged_disabled_default(parsed, confs.drop_last(), k);
                }
            },
            Option::None => {
                lemma_merged_disabled_default(parsed, confs.drop_last(), k);
            },
        }
    }
}

/// After a successful refresh, every disabled interface of the registry
/// carries the default record: the dump contributes only enabled entries,
/// and the reconciler adds only defaults.
pub proof fn lemma_registry_disabled_default(dump: Seq<char>, confs: Seq<Seq<char>>, k: Seq<char>)
    requires
        parse_dump_spec(dump) is Some,
        merged_map(parse_dump_spec(dump)->0, confs).contains_key(k),
        !merged_map(parse_dump_spec(dump)->0, confs)[k].enabled,
    ensures
        merged_map(parse_dump_spec(dump)->0, confs)[k] == default_iface_view(),
{
    lemma_parse_entries_enabled(lines_of(dump), 0);
    lemma_merged_disabled_default(parse_dump_spec(dump)->0, confs, k);
}

/// The shared snapshot of all known interfaces, the currently selected
/// interface name, and the global secret-reveal flag.
pub struct InterfacesMap {
    pub interfaces: Vec<(String, WgInterface)>,
    pub current_interface: String,
    pub show_private: bool,
}

impl InterfacesMap {
    pub open spec fn entries(&self) -> Seq<(Seq<char>, IfaceView)> {
        self.interfaces.deep_view()
    }

    pub open spec fn map_view(&self) -> Map<Seq<char>, IfaceView> {
        entries_map(self.entries())
    }

    pub open spec fn wf(&self) -> bool {
        entries_wf(self.entries())
    }

    /// An empty registry: no interfaces, nothing selected, secrets hidden.
    pub fn new() -> (r: InterfacesMap)
        ensures
            r.wf(),
            r.entries() == Seq::<(Seq<char>, IfaceView)>::empty(),
            r.current_interface@ == Seq::<char>::empty(),
            r.show_private == false,
    {
        let r = InterfacesMap {
            interfaces: Vec::new(),
            current_interface: String::new(),
            show_private: false,
        };
        proof {
            assert(r.entries() =~= Seq::<(Seq<char>, IfaceView)>::empty());
        }
        r
    }

    /// Replaces the stored interface map with what the given dump text
    /// and configuration file listing describe; on a malformed dump the
    /// registry is left exactly as it was.
    #[verifier::loop_isolation(false)]
    pub fn refresh(&mut self, dump: &str, config_files: &Vec<String>) -> (r: Result<
        (),
        ParseError,
    >)
        ensures
            match r {
                Result::Ok(_) => {
                    &&& final(self).wf()
                    &&& parse_dump_spec(dump@) is Some
                    &&& final(self).map_view() == merged_map(
                        parse_dump_spec(dump@)->0,
                        config_files.deep_view(),
                    )
                    &&& final(self).current_interface == old(self).current_interface
                    &&& final(self).show_private == old(self).show_private
                },
                Result::Err(_) => {
                    &&& parse_dump_spec(dump@) is None
                    &&& *final(self) == *old(self)
                },
            },
    {
        let parsed = match parse_dump(dump) {
            Result::Ok(v) => v,
            Result::Err(e) => {
                return Result::Err(e);
            },
        };
        let ghost parsed_dv = parsed.deep_view();
        let ghost base = entries_map(parsed_dv);
        let mut cur: Vec<(String, WgInterface)> = Vec::new();
        let mut rest = parsed;
        let total = rest.len();
        let mut c: usize = 0;
        proof {
            assert(cur.deep_view() =~= Seq::<(Seq<char>, IfaceView)>::empty());
            assert(rest.deep_view() =~= parsed_dv.skip(0));
            assert(parsed_dv.take(0) =~= Seq::<(Seq<char>, IfaceView)>::empty());
        }
        while c < total
            invariant
                0 <= c <= total,
                rest.deep_view() == parsed_dv.skip(c as int),
                rest.len() == total - c,
                entries_wf(cur.deep_view()),
                entries_map(cur.deep_view()) == entries_map(parsed_dv.take(c as int)),
            decreases total - c,
        {
            let ghost rest_dv = rest.deep_view();
            let ghost rest_v = rest@;
            let entry = rest.remove(0);
            proof {
                assert(entry.deep_view() == rest_dv[0]);
                assert(rest_dv[0] == parsed_dv[c as int]);
                assert forall|i: int|
                    0 <= i < rest.deep_view().len() implies rest.deep_view()[i]
                    == parsed_dv.skip(c + 1)[i] by {
                    assert(rest@[i] == rest_v[i + 1]);
                    assert(rest.deep_view()[i] == rest@[i].deep_view());
                    assert(rest_dv[i + 1] == rest_v[i + 1].deep_view());
                    assert(rest_dv[i + 1] == parsed_dv.skip(c as int)[i + 1]);
                }
                assert(rest.deep_view() =~= parsed_dv.skip(c + 1));
            }
            let ghost cur_prev = entries_map(cur.deep_view());
            insert_entry(&mut cur, entry.0, entry.1);
            proof {
                assert(parsed_dv.take(c + 1).drop_last() =~= parsed_dv.take(c as int));
                assert(parsed_dv.take(c + 1).last() == parsed_dv[c as int]);
                assert(entries_map(cur.deep_view()) == entries_map(parsed_dv.take(c + 1)));
            }
            c += 1;
        }
        proof {
            assert(parsed_dv.take(total as int) =~= parsed_dv);
        }
        let m = config_files.len();
        let ghost confs_dv = config_files.deep_view();
        let mut ci: usize = 0;
        proof {
            assert(confs_dv.take(0) =~= Seq::<Seq<char>>::empty());
        }
        while ci < m
            invariant
                0 <= ci <= m,
                entries_wf(cur.deep_view()),
                entries_map(cur.deep_view()) == merged_map(parsed_dv, confs_dv.take(ci as int)),
                forall|k: Seq<char>|
                    #[trigger] base.contains_key(k) ==> entries_map(
                        cur.deep_view(),
                    ).contains_key(k) && entries_map(cur.deep_view())[k] == base[k],
                forall|k: Seq<char>|
                    #[trigger] entries_map(cur.deep_view()).contains_key(k) && !base.contains_key(
                        k,
                    ) ==> entries_map(cur.deep_view())[k] == default_iface_view(),
            decreases m - ci,
        {
            let fname = slice_index_get(config_files.as_slice(), ci);
            proof {
                assert(fname@ == confs_dv[ci as int]);
                assert(confs_dv.take(ci + 1).drop_last() =~= confs_dv.take(ci as int));
                assert(confs_dv.take(ci + 1).last() == confs_dv[ci as int]);
            }
            match conf_base_str(fname.as_str()) {
                Option::Some(b) => {
                    let ghost bb = b@;
                    if !contains_name(&cur, b.as_str()) {
                        let ghost mprev = entries_map(cur.deep_view());
                        proof {
                            if base.contains_key(bb) {
                                assert(entries_map(cur.deep_view()).contains_key(bb));
                                assert(false);
                            }
                        }
                        let d = WgInterface::default();
                        insert_entry(&mut cur, b, d);
                        proof {
                            assert(!base.contains_key(bb));
                            assert(entries_map(cur.deep_view()) == mprev.insert(
                                bb,
                                default_iface_view(),
                            ));
                            assert forall|k: Seq<char>|
                                base.contains_key(k) implies entries_map(
                                cur.deep_view(),
                            ).contains_key(k) && entries_map(cur.deep_view())[k] == base[k] by {
                                assert(mprev.contains_key(k) && mprev[k] == base[k]);
                                assert(k != bb);
                            }
                            assert forall|k: Seq<char>|
                                entries_map(cur.deep_view()).contains_key(k)
                                    && !base.contains_key(k) implies entries_map(
                                cur.deep_view(),
                            )[k] == default_iface_view() by {
                                if k != bb {
                                    assert(mprev.contains_key(k));
                                }
                            }
                        }
                    } else {
                        proof {
                            if !base.contains_key(bb) {
                                assert(entries_map(cur.deep_view())[bb]
                                    == default_iface_view());
                                assert(entries_map(cur.deep_view()).insert(
                                    bb,
                                    default_iface_view(),
                                ) =~= entries_map(cur.deep_view()));
                            }
                        }
                    }
                },
                Option::None => {},
            }
            ci += 1;
        }
        proof {
            assert(confs_dv.take(m as int) =~= confs_dv);
        }
        self.interfaces = cur;
        Result::Ok(())
    }

    /// Flips the global redaction flag; no record is touched.
    pub fn toggle_secret_visibility(&mut self)
        ensures
            final(self).show_private == !old(self).show_private,
            final(self).interfaces == old(self).interfaces,
            final(self).current_interface == old(self).current_interface,
    {
        self.show_private = !self.show_private;
    }

    /// Looks up the interface of the given name.
    #[verifier::loop_isolation(false)]
    pub fn get(&self, name: &str) -> (r: Option<&WgInterface>)
        requires
            self.wf(),
        ensures
            match r {
                Option::Some(w) => self.map_view().contains_key(name@) && w@
                    == self.map_view()[name@],
                Option::None => !self.map_view().contains_key(name@),
            },
    {
        let n = self.interfaces.len();
        let mut k: usize = 0;
        while k < n
            invariant
                0 <= k <= n,
                forall|i: int| 0 <= i < k ==> self.entries()[i].0 != name@,
            decreases n - k,
        {
            let entry = slice_index_get(self.interfaces.as_slice(), k);
            proof {
                assert(entry.deep_view() == self.entries()[k as int]);
            }
            if str_eq(entry.0.as_str(), name) {
                proof {
                    lemma_entries_map_index(self.entries(), k as int);
                }
                return Option::Some(&entry.1);
            }
            k += 1;
        }
        proof {
            lemma_entries_map_domain(self.entries(), name@);
        }
        Option::None
    }

    /// The interface names in their stored, ascending order.
    #[verifier::loop_isolation(false)]
    pub fn names(&self) -> (r: Vec<String>)
        ensures
            r.deep_view() == Seq::new(self.entries().len(), |i: int| self.entries()[i].0),
    {
        let n = self.interfaces.len();
        let mut r: Vec<String> = Vec::new();
        let mut k: usize = 0;
        while k < n
            invariant
                0 <= k <= n,
                r.deep_view() =~= Seq::new(k as nat, |i: int| self.entries()[i].0),
            decreases n - k,
        {
            let entry = slice_index_get(self.interfaces.as_slice(), k);
            proof {
                assert(entry.deep_view() == self.entries()[k as int]);
            }
            let ghost prev = r.deep_view();
            r.push(entry.0.clone());
            proof {
                assert(r.deep_view() =~= prev.push(entry.0@));
                assert(r.deep_view() =~= Seq::new((k + 1) as nat, |i: int| self.entries()[i].0));
            }
            k += 1;
        }
        r
    }

    /// Renders the named interface under the registry's reveal flag.
    pub fn render(&self, name: &str, now: u64) -> (r: String)
        requires
            self.wf(),
            self.map_view().contains_key(name@),
            self.map_view()[name@].enabled ==> forall|i: int|
                0 <= i < self.map_view()[name@].peers.len()
                    ==> self.map_view()[name@].peers[i].latest_handshake <= now,
        ensures
            r@ == iface_text(self.map_view()[name@], self.show_private, now),
    {
        match self.get(name) {
            Option::Some(w) => w.render(self.show_private, now),
            Option::None => {
                proof {
                    assert(false);
                }
                String::new()
            },
        }
    }
}

} // verus!
