use vstd::prelude::*;
use vstd::string::*;

use crate::strings::{
    clone_opt_string, clone_string_pairs, clone_string_vec, contains_string, join_path,
    lemma_lex_lt_connected, lemma_lex_lt_irrefl, lemma_lex_lt_trans, lex_lt, str_eq, str_lt,
};
use crate::Error;

verus! {

/// One catalog entry as persisted in the images file: the source URL template,
/// an optional resolver program, a description, the change directives that
/// steer catalog upgrades, a per-image freshness override in days, and a
/// mapping from host architecture to the architecture name used in the URL.
pub struct ImageEntry {
    pub url: String,
    pub get_url_prog: Option<String>,
    pub description: Option<String>,
    pub change: Vec<String>,
    pub update_after_days: Option<u64>,
    pub arch_mapping: Vec<(String, String)>,
}

/// The mathematical value of an [`ImageEntry`].
#[verifier::ext_equal]
pub ghost struct ImageEntryView {
    pub url: Seq<char>,
    pub get_url_prog: Option<Seq<char>>,
    pub description: Option<Seq<char>>,
    pub change: Seq<Seq<char>>,
    pub update_after_days: Option<u64>,
    pub arch_mapping: Seq<(Seq<char>, Seq<char>)>,
}

impl View for ImageEntry {
    type V = ImageEntryView;

    open spec fn view(&self) -> ImageEntryView {
        ImageEntryView {
            url: self.url@,
            get_url_prog: self.get_url_prog.deep_view(),
            description: self.description.deep_view(),
            change: self.change.deep_view(),
            update_after_days: self.update_after_days,
            arch_mapping: self.arch_mapping.deep_view(),
        }
    }
}

impl DeepView for ImageEntry {
    type V = ImageEntryView;

    open spec fn deep_view(&self) -> ImageEntryView {
        self.view()
    }
}

/// Whether the directive list holds the directive `d`.
pub open spec fn spec_has_directive(change: Seq<Seq<char>>, d: Seq<char>) -> bool {
    exists|i: int| 0 <= i < change.len() && change[i] == d
}

/// Decides [`spec_has_directive`] on an entry's directive list.  Unknown
/// directives are never rejected: the list is only ever searched.
pub fn has_directive(change: &Vec<String>, d: &str) -> (r: bool)
    ensures
        r == spec_has_directive(change.deep_view(), d@),
{
    let mut i: usize = 0;
    while i < change.len()
        invariant
            i <= change.len(),
            forall|k: int| 0 <= k < i ==> change.deep_view()[k] != d@,
        decreases change.len() - i,
    {
        if str_eq(change[i].as_str(), d) {
            proof {
                assert(change.deep_view()[i as int] == d@);
            }
            return true;
        }
        i += 1;
    }
    false
}

/// The upgrade rule for a single field: the local (old) value survives when an
/// explicit `keep-<field>` directive is present, or when neither `update-all`
/// nor an explicit `update-<field>` asks for the upstream (new) value.
pub open spec fn keeps_old(change: Seq<Seq<char>>, keep_d: Seq<char>, update_d: Seq<char>) -> bool {
    spec_has_directive(change, keep_d) || (!spec_has_directive(change, "update-all"@)
        && !spec_has_directive(change, update_d))
}

/// Field-by-field merge of an entry present in both catalogs, directed by the
/// old entry's directive list.
pub open spec fn spec_merge_entry(old_e: ImageEntryView, new_e: ImageEntryView) -> ImageEntryView {
    ImageEntryView {
        url: if keeps_old(old_e.change, "keep-url"@, "update-url"@) {
            old_e.url
        } else {
            new_e.url
        },
        get_url_prog: if keeps_old(
            old_e.change,
            "keep-get-url-prog"@,
            "update-get-url-prog"@,
        ) {
            old_e.get_url_prog
        } else {
            new_e.get_url_prog
        },
        description: if keeps_old(old_e.change, "keep-description"@, "update-description"@) {
            old_e.description
        } else {
            new_e.description
        },
        change: if keeps_old(old_e.change, "keep-change"@, "update-change"@) {
            old_e.change
        } else {
            new_e.change
        },
        update_after_days: if keeps_old(
            old_e.change,
            "keep-update-after-days"@,
            "update-update-after-days"@,
        ) {
            old_e.update_after_days
        } else {
            new_e.update_after_days
        },
        arch_mapping: if keeps_old(old_e.change, "keep-arch-mapping"@, "update-arch-mapping"@) {
            old_e.arch_mapping
        } else {
            new_e.arch_mapping
        },
    }
}

/// Copies a catalog entry; the copy has the same mathematical value.
pub fn clone_entry(e: &ImageEntry) -> (r: ImageEntry)
    ensures
        r@ == e@,
{
    let r = ImageEntry {
        url: e.url.clone(),
        get_url_prog: clone_opt_string(&e.get_url_prog),
        description: clone_opt_string(&e.description),
        change: clone_string_vec(&e.change),
        update_after_days: e.update_after_days,
        arch_mapping: clone_string_pairs(&e.arch_mapping),
    };
    proof {
        assert(r.change.deep_view() =~= e.change.deep_view());
        assert(r.arch_mapping.deep_view() =~= e.arch_mapping.deep_view());
        assert(r@ =~= e@);
    }
    r
}

/// Merges one entry present in both catalogs, as [`spec_merge_entry`] says.
pub fn merge_entry(old_e: &ImageEntry, new_e: &ImageEntry) -> (r: ImageEntry)
    ensures
        r@ == spec_merge_entry(old_e@, new_e@),
{
    let update_all = has_directive(&old_e.change, "update-all");
    let url = if has_directive(&old_e.change, "keep-url") || (!update_all && !has_directive(
        &old_e.change,
        "update-url",
    )) {
        old_e.url.clone()
    } else {
        new_e.url.clone()
    };
    let get_url_prog = if has_directive(&old_e.change, "keep-get-url-prog") || (!update_all
        && !has_directive(&old_e.change, "update-get-url-prog")) {
        clone_opt_string(&old_e.get_url_prog)
    } else {
        clone_opt_string(&new_e.get_url_prog)
    };
    let description = if has_directive(&old_e.change, "keep-description") || (!update_all
        && !has_directive(&old_e.change, "update-description")) {
        clone_opt_string(&old_e.description)
    } else {
        clone_opt_string(&new_e.description)
    };
    let change = if has_directive(&old_e.change, "keep-change") || (!update_all && !has_directive(
        &old_e.change,
        "update-change",
    )) {
        clone_string_vec(&old_e.change)
    } else {
        clone_string_vec(&new_e.change)
    };
    let update_after_days = if has_directive(&old_e.change, "keep-update-after-days") || (!update_all
        && !has_directive(&old_e.change, "update-update-after-days")) {
        old_e.update_after_days
    } else {
        new_e.update_after_days
    };
    let arch_mapping = if has_directive(&old_e.change, "keep-arch-mapping") || (!update_all
        && !has_directive(&old_e.change, "update-arch-mapping")) {
        clone_string_pairs(&old_e.arch_mapping)
    } else {
        clone_string_pairs(&new_e.arch_mapping)
    };
    let r = ImageEntry { url, get_url_prog, description, change, update_after_days, arch_mapping };
    proof {
        assert(r.change.deep_view() =~= (if keeps_old(old_e@.change, "keep-change"@, "update-change"@) {
            old_e@.change
        } else {
            new_e@.change
        }));
        assert(r.arch_mapping.deep_view() =~= (if keeps_old(
            old_e@.change,
            "keep-arch-mapping"@,
            "update-arch-mapping"@,
        ) {
            old_e@.arch_mapping
        } else {
            new_e@.arch_mapping
        }));
        assert(r@ =~= spec_merge_entry(old_e@, new_e@));
    }
    r
}

/// A catalog is a name-keyed sequence of entries; its names are kept strictly
/// ascending, so every name occurs once.
pub open spec fn sorted_catalog(c: Seq<(Seq<char>, ImageEntryView)>) -> bool {
    forall|i: int, j: int| 0 <= i < j < c.len() ==> lex_lt(c[i].0, c[j].0)
}

/// The entry stored under `name`, if any (first match).
pub open spec fn catalog_lookup(
    c: Seq<(Seq<char>, ImageEntryView)>,
    name: Seq<char>,
) -> Option<ImageEntryView>
    decreases c.len(),
{
    if c.len() == 0 {
        None
    } else if c[0].0 == name {
        Some(c[0].1)
    } else {
        catalog_lookup(c.skip(1), name)
    }
}

/// The three-way upgrade merge of two name-sorted catalogs, one output entry
/// per distinct name: a name only in the local (old) catalog survives unless
/// its directives hold `delete`; a name only in the upstream (new) catalog is
/// inserted verbatim; a name in both is merged field by field.
pub open spec fn spec_merge(
    new_c: Seq<(Seq<char>, ImageEntryView)>,
    old_c: Seq<(Seq<char>, ImageEntryView)>,
) -> Seq<(Seq<char>, ImageEntryView)>
    decreases new_c.len() + old_c.len(),
{
    if new_c.len() == 0 && old_c.len() == 0 {
        Seq::empty()
    } else if old_c.len() > 0 && (new_c.len() == 0 || lex_lt(old_c[0].0, new_c[0].0)) {
        let rest = spec_merge(new_c, old_c.skip(1));
        if spec_has_directive(old_c[0].1.change, "delete"@) {
            rest
        } else {
            seq![old_c[0]] + rest
        }
    } else if new_c.len() > 0 && (old_c.len() == 0 || lex_lt(new_c[0].0, old_c[0].0)) {
        seq![new_c[0]] + spec_merge(new_c.skip(1), old_c)
    } else {
        seq![(old_c[0].0, spec_merge_entry(old_c[0].1, new_c[0].1))] + spec_merge(
            new_c.skip(1),
            old_c.skip(1),
        )
    }
}

/// Merges the upstream catalog into the local one, exactly as [`spec_merge`]
/// says.  Both inputs are walked with one pointer each; the entries behind
/// either pointer never change, so the merge is linear in the total number of
/// entries.
pub fn update_images(
    new_catalog: &Vec<(String, ImageEntry)>,
    old_catalog: &Vec<(String, ImageEntry)>,
) -> (r: Vec<(String, ImageEntry)>)
    ensures
        r.deep_view() == spec_merge(new_catalog.deep_view(), old_catalog.deep_view()),
{
    let ghost nv = new_catalog.deep_view();
    let ghost ov = old_catalog.deep_view();
    let mut out: Vec<(String, ImageEntry)> = Vec::new();
    let mut i: usize = 0;
    let mut j: usize = 0;
    proof {
        assert(nv.skip(0) =~= nv);
        assert(ov.skip(0) =~= ov);
        assert(out.deep_view() + spec_merge(nv, ov) =~= spec_merge(nv, ov));
    }
    while i < new_catalog.len() || j < old_catalog.len()
        invariant
            i <= new_catalog.len(),
            j <= old_catalog.len(),
            nv == new_catalog.deep_view(),
            ov == old_catalog.deep_view(),
            out.deep_view() + spec_merge(nv.skip(i as int), ov.skip(j as int)) == spec_merge(
                nv,
                ov,
            ),
        decreases new_catalog.len() - i + old_catalog.len() - j,
    {
        let ghost out0 = out.deep_view();
        let ghost ni = nv.skip(i as int);
        let ghost oj = ov.skip(j as int);
        proof {
            if i < new_catalog.len() {
                assert(ni[0] == nv[i as int]);
                assert(ni.skip(1) =~= nv.skip(i as int + 1));
            }
            if j < old_catalog.len() {
                assert(oj[0] == ov[j as int]);
                assert(oj.skip(1) =~= ov.skip(j as int + 1));
            }
        }
        if j >= old_catalog.len() {
            let p = &new_catalog[i];
            out.push((p.0.clone(), clone_entry(&p.1)));
            proof {
                assert(out.deep_view() =~= out0 + seq![nv[i as int]]);
                assert(spec_merge(ni, oj) == seq![ni[0]] + spec_merge(ni.skip(1), oj));
                assert(out.deep_view() + spec_merge(nv.skip(i as int + 1), oj) =~= out0
                    + spec_merge(ni, oj));
            }
            i += 1;
        } else if i >= new_catalog.len() {
            let p = &old_catalog[j];
            if !has_directive(&p.1.change, "delete") {
                out.push((p.0.clone(), clone_entry(&p.1)));
                proof {
                    assert(out.deep_view() =~= out0 + seq![ov[j as int]]);
                    assert(spec_merge(ni, oj) == seq![oj[0]] + spec_merge(ni, oj.skip(1)));
                    assert(out.deep_view() + spec_merge(ni, ov.skip(j as int + 1)) =~= out0
                        + spec_merge(ni, oj));
                }
            } else {
                proof {
                    assert(spec_merge(ni, oj) == spec_merge(ni, oj.skip(1)));
                }
            }
            j += 1;
        } else {
            let po = &old_catalog[j];
            let pn = &new_catalog[i];
            if str_lt(po.0.as_str(), pn.0.as_str()) {
                if !has_directive(&po.1.change, "delete") {
                    out.push((po.0.clone(), clone_entry(&po.1)));
                    proof {
                        assert(out.deep_view() =~= out0 + seq![ov[j as int]]);
                        assert(spec_merge(ni, oj) == seq![oj[0]] + spec_merge(ni, oj.skip(1)));
                        assert(out.deep_view() + spec_merge(ni, ov.skip(j as int + 1)) =~= out0
                            + spec_merge(ni, oj));
                    }
                } else {
                    proof {
                        assert(spec_merge(ni, oj) == spec_merge(ni, oj.skip(1)));
                    }
                }
                j += 1;
            } else if str_lt(pn.0.as_str(), po.0.as_str()) {
                out.push((pn.0.clone(), clone_entry(&pn.1)));
                proof {
                    assert(out.deep_view() =~= out0 + seq![nv[i as int]]);
                    assert(spec_merge(ni, oj) == seq![ni[0]] + spec_merge(ni.skip(1), oj));
                    assert(out.deep_view() + spec_merge(nv.skip(i as int + 1), oj) =~= out0
                        + spec_merge(ni, oj));
                }
                i += 1;
            } else {
                let merged = merge_entry(&po.1, &pn.1);
                out.push((po.0.clone(), merged));
                proof {
                    assert(out.deep_view() =~= out0 + seq![
                        (ov[j as int].0, spec_merge_entry(ov[j as int].1, nv[i as int].1)),
                    ]);
                    assert(spec_merge(ni, oj) == seq![(oj[0].0, spec_merge_entry(oj[0].1, ni[0].1))]
                        + spec_merge(ni.skip(1), oj.skip(1)));
                    assert(out.deep_view() + spec_merge(
                        nv.skip(i as int + 1),
                        ov.skip(j as int + 1),
                    ) =~= out0 + spec_merge(ni, oj));
                }
                i += 1;
                j += 1;
            }
        }
    }
    proof {
        assert(nv.skip(i as int).len() == 0);
        assert(ov.skip(j as int).len() == 0);
        assert(spec_merge(nv.skip(i as int), ov.skip(j as int)) =~= Seq::empty());
        assert(out.deep_view() + spec_merge(nv.skip(i as int), ov.skip(j as int)) =~= out.deep_view());
    }
    out
}

proof fn lemma_sorted_skip(c: Seq<(Seq<char>, ImageEntryView)>)
    requires
        sorted_catalog(c),
        c.len() > 0,
    ensures
        sorted_catalog(c.skip(1)),
{
    assert forall|i: int, j: int| 0 <= i < j < c.skip(1).len() implies lex_lt(
        c.skip(1)[i].0,
        c.skip(1)[j].0,
    ) by {
        assert(c.skip(1)[i] == c[i + 1]);
        assert(c.skip(1)[j] == c[j + 1]);
    }
}

proof fn lemma_lookup_none_below(c: Seq<(Seq<char>, ImageEntryView)>, name: Seq<char>)
    requires
        sorted_catalog(c),
        c.len() > 0 ==> lex_lt(name, c[0].0),
    ensures
        catalog_lookup(c, name) is None,
    decreases c.len(),
{
    if c.len() > 0 {
        if c[0].0 == name {
            lemma_lex_lt_irrefl(name);
            assert(false);
        }
        lemma_sorted_skip(c);
        if c.len() > 1 {
            assert(lex_lt(c[0].0, c[1].0));
            lemma_lex_lt_trans(name, c[0].0, c[1].0);
            assert(c.skip(1)[0] == c[1]);
        }
        lemma_lookup_none_below(c.skip(1), name);
    }
}

proof fn lemma_lookup_cons(
    x: (Seq<char>, ImageEntryView),
    s: Seq<(Seq<char>, ImageEntryView)>,
    name: Seq<char>,
)
    ensures
        catalog_lookup(seq![x] + s, name) == (if x.0 == name {
            Some(x.1)
        } else {
            catalog_lookup(s, name)
        }),
{
    let t = seq![x] + s;
    assert(t[0] == x);
    assert(t.skip(1) =~= s);
}

/// What the merged catalog holds under any one name: an entry only in the old
/// catalog survives unless it is directed to be deleted, an entry only in the
/// new catalog is taken verbatim, an entry in both is merged field by field,
/// and no other name appears.
pub proof fn lemma_merge_lookup(
    new_c: Seq<(Seq<char>, ImageEntryView)>,
    old_c: Seq<(Seq<char>, ImageEntryView)>,
    name: Seq<char>,
)
    requires
        sorted_catalog(new_c),
        sorted_catalog(old_c),
    ensures
        catalog_lookup(spec_merge(new_c, old_c), name) == (match (
            catalog_lookup(old_c, name),
            catalog_lookup(new_c, name),
        ) {
            (Some(oe), Some(ne)) => Some(spec_merge_entry(oe, ne)),
            (Some(oe), None) => if spec_has_directive(oe.change, "delete"@) {
                None
            } else {
                Some(oe)
            },
            (None, Some(ne)) => Some(ne),
            (None, None) => None::<ImageEntryView>,
        }),
    decreases new_c.len() + old_c.len(),
{
    if new_c.len() == 0 && old_c.len() == 0 {
    } else if old_c.len() > 0 && (new_c.len() == 0 || lex_lt(old_c[0].0, new_c[0].0)) {
        let oh = old_c[0];
        lemma_sorted_skip(old_c);
        lemma_merge_lookup(new_c, old_c.skip(1), name);
        let rest = spec_merge(new_c, old_c.skip(1));
        if oh.0 == name {
            // name not in the new catalog (every new name is above it) and
            // not in the old tail.
            if new_c.len() > 0 {
                lemma_lookup_none_below(new_c, name);
            }
            if old_c.len() > 1 {
                assert(lex_lt(old_c[0].0, old_c[1].0));
                assert(old_c.skip(1)[0] == old_c[1]);
            }
            lemma_lookup_none_below(old_c.skip(1), name);
            if !spec_has_directive(oh.1.change, "delete"@) {
                lemma_lookup_cons(oh, rest, name);
            }
        } else {
            if !spec_has_directive(oh.1.change, "delete"@) {
                lemma_lookup_cons(oh, rest, name);
            }
        }
    } else if new_c.len() > 0 && (old_c.len() == 0 || lex_lt(new_c[0].0, old_c[0].0)) {
        let nh = new_c[0];
        lemma_sorted_skip(new_c);
        lemma_merge_lookup(new_c.skip(1), old_c, name);
        let rest = spec_merge(new_c.skip(1), old_c);
        lemma_lookup_cons(nh, rest, name);
        if nh.0 == name {
            if old_c.len() > 0 {
                lemma_lookup_none_below(old_c, name);
            }
            if new_c.len() > 1 {
                assert(lex_lt(new_c[0].0, new_c[1].0));
                assert(new_c.skip(1)[0] == new_c[1]);
            }
            lemma_lookup_none_below(new_c.skip(1), name);
        }
    } else {
        let oh = old_c[0];
        let nh = new_c[0];
        lemma_lex_lt_connected(oh.0, nh.0);
        assert(oh.0 == nh.0);
        lemma_sorted_skip(new_c);
        lemma_sorted_skip(old_c);
        lemma_merge_lookup(new_c.skip(1), old_c.skip(1), name);
        let rest = spec_merge(new_c.skip(1), old_c.skip(1));
        lemma_lookup_cons((oh.0, spec_merge_entry(oh.1, nh.1)), rest, name);
        if oh.0 == name {
            if old_c.len() > 1 {
                assert(lex_lt(old_c[0].0, old_c[1].0));
                assert(old_c.skip(1)[0] == old_c[1]);
            }
            lemma_lookup_none_below(old_c.skip(1), name);
            if new_c.len() > 1 {
                assert(lex_lt(new_c[0].0, new_c[1].0));
                assert(new_c.skip(1)[0] == new_c[1]);
            }
            lemma_lookup_none_below(new_c.skip(1), name);
        }
    }
}

proof fn lemma_merge_name_bound(
    new_c: Seq<(Seq<char>, ImageEntryView)>,
    old_c: Seq<(Seq<char>, ImageEntryView)>,
    b: Seq<char>,
)
    requires
        forall|k: int| 0 <= k < new_c.len() ==> lex_lt(b, (#[trigger] new_c[k]).0),
        forall|k: int| 0 <= k < old_c.len() ==> lex_lt(b, (#[trigger] old_c[k]).0),
    ensures
        forall|k: int|
            0 <= k < spec_merge(new_c, old_c).len() ==> lex_lt(
                b,
                (#[trigger] spec_merge(new_c, old_c)[k]).0,
            ),
    decreases new_c.len() + old_c.len(),
{
    let m = spec_merge(new_c, old_c);
    if new_c.len() == 0 && old_c.len() == 0 {
    } else if old_c.len() > 0 && (new_c.len() == 0 || lex_lt(old_c[0].0, new_c[0].0)) {
        assert forall|k: int| 0 <= k < old_c.skip(1).len() implies lex_lt(
            b,
            (#[trigger] old_c.skip(1)[k]).0,
        ) by {
            assert(old_c.skip(1)[k] == old_c[k + 1]);
        }
        lemma_merge_name_bound(new_c, old_c.skip(1), b);
        let rest = spec_merge(new_c, old_c.skip(1));
        if !spec_has_directive(old_c[0].1.change, "delete"@) {
            assert forall|k: int| 0 <= k < m.len() implies lex_lt(b, (#[trigger] m[k]).0) by {
                if k == 0 {
                    assert(m[0] == old_c[0]);
                } else {
                    assert(m[k] == rest[k - 1]);
                }
            }
        }
    } else if new_c.len() > 0 && (old_c.len() == 0 || lex_lt(new_c[0].0, old_c[0].0)) {
        assert forall|k: int| 0 <= k < new_c.skip(1).len() implies lex_lt(
            b,
            (#[trigger] new_c.skip(1)[k]).0,
        ) by {
            assert(new_c.skip(1)[k] == new_c[k + 1]);
        }
        lemma_merge_name_bound(new_c.skip(1), old_c, b);
        let rest = spec_merge(new_c.skip(1), old_c);
        assert forall|k: int| 0 <= k < m.len() implies lex_lt(b, (#[trigger] m[k]).0) by {
            if k == 0 {
                assert(m[0] == new_c[0]);
            } else {
                assert(m[k] == rest[k - 1]);
            }
        }
    } else {
        assert forall|k: int| 0 <= k < new_c.skip(1).len() implies lex_lt(
            b,
            (#[trigger] new_c.skip(1)[k]).0,
        ) by {
            assert(new_c.skip(1)[k] == new_c[k + 1]);
        }
        assert forall|k: int| 0 <= k < old_c.skip(1).len() implies lex_lt(
            b,
            (#[trigger] old_c.skip(1)[k]).0,
        ) by {
            assert(old_c.skip(1)[k] == old_c[k + 1]);
        }
        lemma_merge_name_bound(new_c.skip(1), old_c.skip(1), b);
        let rest = spec_merge(new_c.skip(1), old_c.skip(1));
        assert forall|k: int| 0 <= k < m.len() implies lex_lt(b, (#[trigger] m[k]).0) by {
            if k == 0 {
                assert(m[0].0 == old_c[0].0);
            } else {
                assert(m[k] == rest[k - 1]);
            }
        }
    }
}

/// The merge keeps the catalog invariant: a merge of two strictly name-sorted
/// catalogs is strictly name-sorted, so every name still occurs once.
pub proof fn lemma_merge_sorted(
    new_c: Seq<(Seq<char>, ImageEntryView)>,
    old_c: Seq<(Seq<char>, ImageEntryView)>,
)
    requires
        sorted_catalog(new_c),
        sorted_catalog(old_c),
    ensures
        sorted_catalog(spec_merge(new_c, old_c)),
    decreases new_c.len() + old_c.len(),
{
    let m = spec_merge(new_c, old_c);
    if new_c.len() == 0 && old_c.len() == 0 {
    } else if old_c.len() > 0 && (new_c.len() == 0 || lex_lt(old_c[0].0, new_c[0].0)) {
        let h = old_c[0];
        lemma_sorted_skip(old_c);
        lemma_merge_sorted(new_c, old_c.skip(1));
        let rest = spec_merge(new_c, old_c.skip(1));
        if !spec_has_directive(h.1.change, "delete"@) {
            assert forall|k: int| 0 <= k < new_c.len() implies lex_lt(
                h.0,
                (#[trigger] new_c[k]).0,
            ) by {
                if k > 0 {
                    lemma_lex_lt_trans(h.0, new_c[0].0, new_c[k].0);
                }
            }
            assert forall|k: int| 0 <= k < old_c.skip(1).len() implies lex_lt(
                h.0,
                (#[trigger] old_c.skip(1)[k]).0,
            ) by {
                assert(old_c.skip(1)[k] == old_c[k + 1]);
            }
            lemma_merge_name_bound(new_c, old_c.skip(1), h.0);
            assert forall|a: int, j: int| 0 <= a < j < m.len() implies lex_lt(
                (#[trigger] m[a]).0,
                (#[trigger] m[j]).0,
            ) by {
                if a == 0 {
                    assert(m[0] == h);
                    assert(m[j] == rest[j - 1]);
                } else {
                    assert(m[a] == rest[a - 1]);
                    assert(m[j] == rest[j - 1]);
                }
            }
        }
    } else if new_c.len() > 0 && (old_c.len() == 0 || lex_lt(new_c[0].0, old_c[0].0)) {
        let h = new_c[0];
        lemma_sorted_skip(new_c);
        lemma_merge_sorted(new_c.skip(1), old_c);
        let rest = spec_merge(new_c.skip(1), old_c);
        assert forall|k: int| 0 <= k < old_c.len() implies lex_lt(h.0, (#[trigger] old_c[k]).0) by {
            if k > 0 {
                lemma_lex_lt_trans(h.0, old_c[0].0, old_c[k].0);
            }
        }
        assert forall|k: int| 0 <= k < new_c.skip(1).len() implies lex_lt(
            h.0,
            (#[trigger] new_c.skip(1)[k]).0,
        ) by {
            assert(new_c.skip(1)[k] == new_c[k + 1]);
        }
        lemma_merge_name_bound(new_c.skip(1), old_c, h.0);
        assert forall|a: int, j: int| 0 <= a < j < m.len() implies lex_lt(
            (#[trigger] m[a]).0,
            (#[trigger] m[j]).0,
        ) by {
            if a == 0 {
                assert(m[0] == h);
                assert(m[j] == rest[j - 1]);
            } else {
                assert(m[a] == rest[a - 1]);
                assert(m[j] == rest[j - 1]);
            }
        }
    } else {
        let hn = old_c[0].0;
        lemma_lex_lt_connected(old_c[0].0, new_c[0].0);
        lemma_sorted_skip(new_c);
        lemma_sorted_skip(old_c);
        lemma_merge_sorted(new_c.skip(1), old_c.skip(1));
        let rest = spec_merge(new_c.skip(1), old_c.skip(1));
        assert forall|k: int| 0 <= k < new_c.skip(1).len() implies lex_lt(
            hn,
            (#[trigger] new_c.skip(1)[k]).0,
        ) by {
            assert(new_c.skip(1)[k] == new_c[k + 1]);
        }
        assert forall|k: int| 0 <= k < old_c.skip(1).len() implies lex_lt(
            hn,
            (#[trigger] old_c.skip(1)[k]).0,
        ) by {
            assert(old_c.skip(1)[k] == old_c[k + 1]);
        }
        lemma_merge_name_bound(new_c.skip(1), old_c.skip(1), hn);
        assert forall|a: int, j: int| 0 <= a < j < m.len() implies lex_lt(
            (#[trigger] m[a]).0,
            (#[trigger] m[j]).0,
        ) by {
            if a == 0 {
                assert(m[0].0 == hn);
                assert(m[j] == rest[j - 1]);
            } else {
                assert(m[a] == rest[a - 1]);
                assert(m[j] == rest[j - 1]);
            }
        }
    }
}

/// Merging a catalog with itself is a no-op, whatever the directives say.
pub proof fn lemma_merge_self(c: Seq<(Seq<char>, ImageEntryView)>)
    requires
        sorted_catalog(c),
    ensures
        spec_merge(c, c) == c,
    decreases c.len(),
{
    if c.len() == 0 {
        assert(spec_merge(c, c) =~= c);
    } else {
        lemma_lex_lt_irrefl(c[0].0);
        lemma_sorted_skip(c);
        lemma_merge_self(c.skip(1));
        assert(spec_merge_entry(c[0].1, c[0].1) =~= c[0].1);
        assert(seq![(c[0].0, spec_merge_entry(c[0].1, c[0].1))] + spec_merge(c.skip(1), c.skip(1))
            =~= c);
    }
}

/// An old entry directed to be deleted, with no upstream replacement, is
/// absent from the merged catalog.
pub proof fn lemma_delete_removes(
    new_c: Seq<(Seq<char>, ImageEntryView)>,
    old_c: Seq<(Seq<char>, ImageEntryView)>,
    name: Seq<char>,
)
    requires
        sorted_catalog(new_c),
        sorted_catalog(old_c),
        catalog_lookup(old_c, name) matches Some(oe) && spec_has_directive(oe.change, "delete"@),
        catalog_lookup(new_c, name) is None,
    ensures
        catalog_lookup(spec_merge(new_c, old_c), name) is None,
{
    lemma_merge_lookup(new_c, old_c, name);
}

/// An explicit `keep-<field>` always preserves the old value of that field,
/// whatever else the directive list says.
pub proof fn lemma_keep_beats_update_all(old_e: ImageEntryView, new_e: ImageEntryView)
    ensures
        spec_has_directive(old_e.change, "keep-url"@) ==> spec_merge_entry(old_e, new_e).url
            == old_e.url,
        spec_has_directive(old_e.change, "keep-get-url-prog"@) ==> spec_merge_entry(
            old_e,
            new_e,
        ).get_url_prog == old_e.get_url_prog,
        spec_has_directive(old_e.change, "keep-description"@) ==> spec_merge_entry(
            old_e,
            new_e,
        ).description == old_e.description,
        spec_has_directive(old_e.change, "keep-change"@) ==> spec_merge_entry(old_e, new_e).change
            == old_e.change,
        spec_has_directive(old_e.change, "keep-update-after-days"@) ==> spec_merge_entry(
            old_e,
            new_e,
        ).update_after_days == old_e.update_after_days,
        spec_has_directive(old_e.change, "keep-arch-mapping"@) ==> spec_merge_entry(
            old_e,
            new_e,
        ).arch_mapping == old_e.arch_mapping,
{
}

/// An explicit `update-<field>`, not contradicted by `keep-<field>`, forces
/// the new value of that field even without `update-all`.
pub proof fn lemma_update_field_forces_new(old_e: ImageEntryView, new_e: ImageEntryView)
    ensures
        spec_has_directive(old_e.change, "update-url"@) && !spec_has_directive(
            old_e.change,
            "keep-url"@,
        ) ==> spec_merge_entry(old_e, new_e).url == new_e.url,
        spec_has_directive(old_e.change, "update-get-url-prog"@) && !spec_has_directive(
            old_e.change,
            "keep-get-url-prog"@,
        ) ==> spec_merge_entry(old_e, new_e).get_url_prog == new_e.get_url_prog,
        spec_has_directive(old_e.change, "update-description"@) && !spec_has_directive(
            old_e.change,
            "keep-description"@,
        ) ==> spec_merge_entry(old_e, new_e).description == new_e.description,
        spec_has_directive(old_e.change, "update-change"@) && !spec_has_directive(
            old_e.change,
            "keep-change"@,
        ) ==> spec_merge_entry(old_e, new_e).change == new_e.change,
        spec_has_directive(old_e.change, "update-update-after-days"@) && !spec_has_directive(
            old_e.change,
            "keep-update-after-days"@,
        ) ==> spec_merge_entry(old_e, new_e).update_after_days == new_e.update_after_days,
        spec_has_directive(old_e.change, "update-arch-mapping"@) && !spec_has_directive(
            old_e.change,
            "keep-arch-mapping"@,
        ) ==> spec_merge_entry(old_e, new_e).arch_mapping == new_e.arch_mapping,
{
}

/// `update-all` with no per-field directives takes every mergeable field from
/// the new entry.
pub proof fn lemma_update_all_takes_new(old_e: ImageEntryView, new_e: ImageEntryView)
    requires
        spec_has_directive(old_e.change, "update-all"@),
        !spec_has_directive(old_e.change, "keep-url"@),
        !spec_has_directive(old_e.change, "keep-get-url-prog"@),
        !spec_has_directive(old_e.change, "keep-description"@),
        !spec_has_directive(old_e.change, "keep-change"@),
        !spec_has_directive(old_e.change, "keep-update-after-days"@),
        !spec_has_directive(old_e.change, "keep-arch-mapping"@),
    ensures
        spec_merge_entry(old_e, new_e) == new_e,
{
    assert(spec_merge_entry(old_e, new_e) =~= new_e);
}

/// The images section of the tool's configuration, threaded through as plain
/// values: the writable images directory, further read-only image directories,
/// and the catalog-wide freshness threshold in days.
pub struct ImagesConfig {
    pub directory: String,
    pub other_directories_ro: Vec<String>,
    pub update_after_days: Option<u64>,
}

/// A catalog image bound to the directory and freshness settings it was
/// loaded under.
pub struct Image {
    pub name: String,
    pub description: Option<String>,
    url: String,
    get_url_prog: Option<String>,
    directory: String,
    update_after_days: Option<u64>,
    default_update_after_days: Option<u64>,
}

/// The mathematical value of an [`Image`].
#[verifier::ext_equal]
pub ghost struct ImageView {
    pub name: Seq<char>,
    pub description: Option<Seq<char>>,
    pub url: Seq<char>,
    pub get_url_prog: Option<Seq<char>>,
    pub directory: Seq<char>,
    pub update_after_days: Option<u64>,
    pub default_update_after_days: Option<u64>,
}

impl View for Image {
    type V = ImageView;

    closed spec fn view(&self) -> ImageView {
        ImageView {
            name: self.name@,
            description: self.description.deep_view(),
            url: self.url@,
            get_url_prog: self.get_url_prog.deep_view(),
            directory: self.directory@,
            update_after_days: self.update_after_days,
            default_update_after_days: self.default_update_after_days,
        }
    }
}

impl DeepView for Image {
    type V = ImageView;

    open spec fn deep_view(&self) -> ImageView {
        self.view()
    }
}

/// First match in an association list of strings.
pub open spec fn assoc_lookup(m: Seq<(Seq<char>, Seq<char>)>, k: Seq<char>) -> Option<Seq<char>>
    decreases m.len(),
{
    if m.len() == 0 {
        None
    } else if m[0].0 == k {
        Some(m[0].1)
    } else {
        assoc_lookup(m.skip(1), k)
    }
}

fn assoc_get(m: &Vec<(String, String)>, k: &str) -> (r: Option<String>)
    ensures
        match r {
            Some(s) => assoc_lookup(m.deep_view(), k@) == Some(s@),
            None => assoc_lookup(m.deep_view(), k@) is None,
        },
{
    let ghost mv = m.deep_view();
    let mut i: usize = 0;
    proof {
        assert(mv.skip(0) =~= mv);
    }
    while i < m.len()
        invariant
            i <= m.len(),
            mv == m.deep_view(),
            assoc_lookup(mv, k@) == assoc_lookup(mv.skip(i as int), k@),
        decreases m.len() - i,
    {
        proof {
            assert(mv.skip(i as int)[0] == mv[i as int]);
            assert(mv.skip(i as int).skip(1) =~= mv.skip(i as int + 1));
        }
        if str_eq(m[i].0.as_str(), k) {
            return Some(m[i].1.clone());
        }
        i += 1;
    }
    proof {
        assert(mv.skip(i as int).len() == 0);
    }
    None
}

/// The image an entry loads as, its URL left aside: the URL passes through
/// the template renderer, whose output no contract pins down, so it is
/// carried as an opaque value and every other field is exact.
pub open spec fn spec_image_base(
    name: Seq<char>,
    e: ImageEntryView,
    directory: Seq<char>,
    default_days: Option<u64>,
) -> ImageView {
    ImageView {
        name: name,
        description: e.description,
        url: e.url,
        get_url_prog: e.get_url_prog,
        directory: directory,
        update_after_days: e.update_after_days,
        default_update_after_days: default_days,
    }
}

/// Whether an image is stale: only when the file's modification time is known,
/// a threshold is configured, and more than that many days have passed.  A
/// missing or unreadable file is never stale, nor is one modified in the
/// future.
pub open spec fn spec_outdated(img: ImageView, modified: Option<u64>, now: u64) -> bool {
    match modified {
        None => false,
        Some(m) => if now < m {
            false
        } else {
            match spec_effective_days(img) {
                None => false,
                Some(d) => (now - m) > d * 86400,
            }
        },
    }
}

/// The freshness threshold that applies to an image: its own override, or the
/// catalog-wide default.
pub open spec fn spec_effective_days(img: ImageView) -> Option<u64> {
    match img.update_after_days {
        Some(d) => Some(d),
        None => img.default_update_after_days,
    }
}

/// The URL an image ends up with, given what the renderer made of its
/// template: the rendered text when the template rendered, the template
/// kept as written otherwise.
pub fn url_from_render(template: &String, rendered: Option<String>) -> (r: String)
    ensures
        r@ == (match rendered {
            Some(u) => u@,
            None => template@,
        }),
{
    match rendered {
        Some(u) => u,
        None => template.clone(),
    }
}

impl Image {
    /// Builds the image a catalog entry describes, under the given
    /// configuration and host architecture: the architecture is mapped
    /// through the entry's arch mapping, the URL template is rendered
    /// against it, and a URL that does not render is kept as written.  The
    /// rendered URL is whatever the template engine returned; every other
    /// field is pinned.
    pub fn from_entry(name: &str, entry: &ImageEntry, config: &ImagesConfig, arch: &str) -> (r:
        Image)
        ensures
            r@ == (ImageView {
                url: r@.url,
                ..spec_image_base(name@, entry@, config.directory@, config.update_after_days)
            }),
    {
        let mapped: String = match assoc_get(&entry.arch_mapping, arch) {
            Some(m) => m,
            None => String::from_str(arch),
        };
        let url: String = url_from_render(
            &entry.url,
            crate::template::render_one(entry.url.as_str(), "arch", mapped.as_str()),
        );
        let r = Image {
            name: String::from_str(name),
            description: clone_opt_string(&entry.description),
            url,
            get_url_prog: clone_opt_string(&entry.get_url_prog),
            directory: config.directory.clone(),
            update_after_days: entry.update_after_days,
            default_update_after_days: config.update_after_days,
        };
        proof {
            assert(r@ =~= (ImageView {
                url: r@.url,
                ..spec_image_base(name@, entry@, config.directory@, config.update_after_days)
            }));
        }
        r
    }

    /// The path the image's file lives at.
    pub fn path(&self) -> (r: String)
        ensures
            r@ == self@.directory + "/"@ + self@.name,
    {
        join_path(self.directory.as_str(), self.name.as_str())
    }

    /// Whether the image is stale, given the file's modification time and the
    /// current time, both in seconds.  A missing file (`modified` of `None`)
    /// is never stale.
    pub fn outdate(&self, modified: Option<u64>, now: u64) -> (r: bool)
        ensures
            r == spec_outdated(self@, modified, now),
            modified is None ==> r == false,
    {
        let days: Option<u64> = match self.update_after_days {
            Some(d) => Some(d),
            None => self.default_update_after_days,
        };
        match modified {
            None => false,
            Some(m) => {
                if now < m {
                    false
                } else {
                    match days {
                        None => false,
                        Some(d) => ((now - m) as u128) > (d as u128) * 86400u128,
                    }
                }
            },
        }
    }

    /// Whether the image's file is among the given directory contents.
    pub fn exists_in(&self, files: &Vec<String>) -> (r: bool)
        ensures
            r == files.deep_view().contains(self@.name),
    {
        contains_string(files, self.name.as_str())
    }

    /// Where the image's URL-resolver program lives, if it has one: an
    /// absolute reference as written, a relative one under the
    /// `get-url-progs` directory of the configuration directory.
    pub fn url_prog_path(&self, config_dir: &str) -> (r: Option<String>)
        ensures
            match self@.get_url_prog {
                None => r is None,
                Some(p) => r matches Some(q) && q@ == (if p.len() > 0 && p[0] == '/' {
                    p
                } else {
                    config_dir@ + "/get-url-progs/"@ + p
                }),
            },
    {
        match &self.get_url_prog {
            None => None,
            Some(p) => {
                if p.as_str().unicode_len() > 0 && p.as_str().get_char(0) == '/' {
                    Some(p.clone())
                } else {
                    let mut q = String::from_str(config_dir);
                    q.append("/get-url-progs/");
                    q.append(p.as_str());
                    Some(q)
                }
            },
        }
    }

    /// The URL to download from, given what the resolver program printed: a
    /// non-empty resolver output replaces the catalog URL.
    pub fn resolved_url(&self, output: Option<&String>) -> (r: String)
        ensures
            r@ == (match output {
                Some(o) => if o@.len() > 0 {
                    o@
                } else {
                    self@.url
                },
                None => self@.url,
            }),
    {
        match output {
            Some(o) => {
                if o.as_str().unicode_len() > 0 {
                    o.clone()
                } else {
                    self.url.clone()
                }
            },
            None => self.url.clone(),
        }
    }
}

/// Copies an image; the copy has the same mathematical value.
fn clone_image(im: &Image) -> (r: Image)
    ensures
        r@ == im@,
{
    let r = Image {
        name: im.name.clone(),
        description: clone_opt_string(&im.description),
        url: im.url.clone(),
        get_url_prog: clone_opt_string(&im.get_url_prog),
        directory: im.directory.clone(),
        update_after_days: im.update_after_days,
        default_update_after_days: im.default_update_after_days,
    };
    proof {
        assert(r@ =~= im@);
    }
    r
}

/// Images sorted strictly by name.
pub open spec fn images_sorted(s: Seq<ImageView>) -> bool {
    forall|i: int, j: int| 0 <= i < j < s.len() ==> lex_lt(s[i].name, s[j].name)
}

/// First image of the given name.
pub open spec fn images_lookup(s: Seq<ImageView>, name: Seq<char>) -> Option<ImageView>
    decreases s.len(),
{
    if s.len() == 0 {
        None
    } else if s[0].name == name {
        Some(s[0])
    } else {
        images_lookup(s.skip(1), name)
    }
}

/// The images a mask of booleans, one per element, keeps, in order.
pub open spec fn mask_filter(s: Seq<ImageView>, keep: Seq<bool>) -> Seq<ImageView>
    decreases s.len(),
{
    if s.len() == 0 {
        Seq::empty()
    } else {
        mask_filter(s.drop_last(), keep.drop_last()) + (if keep.last() {
            seq![s.last()]
        } else {
            Seq::empty()
        })
    }
}

proof fn lemma_mask_filter_push(s: Seq<ImageView>, keep: Seq<bool>, x: ImageView, b: bool)
    requires
        s.len() == keep.len(),
    ensures
        mask_filter(s.push(x), keep.push(b)) == mask_filter(s, keep) + (if b {
            seq![x]
        } else {
            Seq::<ImageView>::empty()
        }),
{
    assert(s.push(x).drop_last() =~= s);
    assert(keep.push(b).drop_last() =~= keep);
    assert(s.push(x).last() == x);
    assert(keep.push(b).last() == b);
}

/// The loaded catalog: images in strictly ascending name order.
pub struct Images {
    pub items: Vec<Image>,
}

impl View for Images {
    type V = Seq<ImageView>;

    closed spec fn view(&self) -> Seq<ImageView> {
        self.items.deep_view()
    }
}

impl Images {
    /// The catalog's invariant: names strictly ascending, so each name names
    /// one image.
    pub open spec fn wf(&self) -> bool {
        images_sorted(self@)
    }

    /// Keeps only the images whose file is among the given directory
    /// contents.
    pub fn exists_in(self, files: &Vec<String>) -> (r: Images)
        ensures
            r@ == self@.filter(|im: ImageView| files.deep_view().contains(im.name)),
            self.wf() ==> r.wf(),
    {
        let ghost sv = self.items.deep_view();
        let ghost p = |im: ImageView| files.deep_view().contains(im.name);
        let mut out: Vec<Image> = Vec::new();
        let mut i: usize = 0;
        proof {
            reveal(Seq::filter);
            assert(sv.take(0) =~= Seq::<ImageView>::empty());
            assert(out.deep_view() =~= sv.take(0).filter(p));
        }
        while i < self.items.len()
            invariant
                i <= self.items.len(),
                sv == self.items.deep_view(),
                p == (|im: ImageView| files.deep_view().contains(im.name)),
                out.deep_view() == sv.take(i as int).filter(p),
            decreases self.items.len() - i,
        {
            let ghost out0 = out.deep_view();
            let keep = contains_string(files, self.items[i].name.as_str());
            if keep {
                out.push(clone_image(&self.items[i]));
            }
            proof {
                reveal(Seq::filter);
                assert(sv.take(i as int + 1).drop_last() =~= sv.take(i as int));
                assert(sv.take(i as int + 1).last() == sv[i as int]);
                if keep {
                    assert(out.deep_view() =~= out0.push(sv[i as int]));
                } else {
                    assert(out.deep_view() =~= out0);
                }
            }
            i += 1;
        }
        proof {
            assert(sv.take(i as int) =~= sv);
            if images_sorted(sv) {
                crate::strings::lemma_sorted_filter(sv, p, |im: ImageView| im.name);
            }
        }
        Images { items: out }
    }

    /// Keeps only the stale images, judged from the given modification times
    /// (seconds, by file name) and the current time.
    pub fn outdate(self, status: &Vec<(String, u64)>, now: u64) -> (r: Images)
        ensures
            r@ == self@.filter(
                |im: ImageView| spec_outdated(im, assoc_lookup_u64(status.deep_view(), im.name), now),
            ),
            self.wf() ==> r.wf(),
    {
        let ghost sv = self.items.deep_view();
        let ghost p = |im: ImageView| spec_outdated(
            im,
            assoc_lookup_u64(status.deep_view(), im.name),
            now,
        );
        let mut out: Vec<Image> = Vec::new();
        let mut i: usize = 0;
        proof {
            reveal(Seq::filter);
            assert(sv.take(0) =~= Seq::<ImageView>::empty());
            assert(out.deep_view() =~= sv.take(0).filter(p));
        }
        while i < self.items.len()
            invariant
                i <= self.items.len(),
                sv == self.items.deep_view(),
                p == (|im: ImageView| spec_outdated(
                    im,
                    assoc_lookup_u64(status.deep_view(), im.name),
                    now,
                )),
                out.deep_view() == sv.take(i as int).filter(p),
            decreases self.items.len() - i,
        {
            let ghost out0 = out.deep_view();
            let modified = assoc_get_u64(status, self.items[i].name.as_str());
            let keep = self.items[i].outdate(modified, now);
            if keep {
                out.push(clone_image(&self.items[i]));
            }
            proof {
                reveal(Seq::filter);
                assert(sv.take(i as int + 1).drop_last() =~= sv.take(i as int));
                assert(sv.take(i as int + 1).last() == sv[i as int]);
                if keep {
                    assert(out.deep_view() =~= out0.push(sv[i as int]));
                } else {
                    assert(out.deep_view() =~= out0);
                }
            }
            i += 1;
        }
        proof {
            assert(sv.take(i as int) =~= sv);
            if images_sorted(sv) {
                crate::strings::lemma_sorted_filter(sv, p, |im: ImageView| im.name);
            }
        }
        Images { items: out }
    }

    /// Keeps exactly the images the predicate approves, unmodified and in
    /// catalog order: the predicate is asked once per image, and its answers
    /// alone decide membership.
    pub fn filter<F: Fn(&Image) -> bool>(self, predicate: F) -> (r: Images)
        requires
            forall|im: &Image| #[trigger] call_requires(predicate, (im,)),
        ensures
            exists|keep: Seq<bool>|
                #![auto]
                keep.len() == self.items@.len() && (forall|k: int|
                    0 <= k < keep.len() ==> call_ensures(predicate, (&self.items@[k],), keep[k]))
                    && r@ == mask_filter(self@, keep),
    {
        let ghost sv = self@;
        let mut out: Vec<Image> = Vec::new();
        let ghost mut keep: Seq<bool> = Seq::empty();
        let mut i: usize = 0;
        proof {
            assert(sv.take(0) =~= Seq::<ImageView>::empty());
            assert(out.deep_view() =~= mask_filter(sv.take(0), keep));
        }
        while i < self.items.len()
            invariant
                i <= self.items.len(),
                sv == self@,
                keep.len() == i,
                forall|im: &Image| #[trigger] call_requires(predicate, (im,)),
                forall|k: int|
                    0 <= k < i ==> call_ensures(predicate, (&self.items@[k],), #[trigger] keep[k]),
                out.deep_view() == mask_filter(sv.take(i as int), keep),
            decreases self.items.len() - i,
        {
            let b = predicate(&self.items[i]);
            let ghost keep0 = keep;
            let ghost out0 = out.deep_view();
            if b {
                out.push(clone_image(&self.items[i]));
                proof {
                    assert(out.deep_view() =~= out0.push(sv[i as int]));
                }
            }
            proof {
                keep = keep.push(b);
                lemma_mask_filter_push(sv.take(i as int), keep0, sv[i as int], b);
                assert(sv.take(i as int + 1) =~= sv.take(i as int).push(sv[i as int]));
                if b {
                    assert(out.deep_view() =~= mask_filter(sv.take(i as int), keep0) + seq![
                        sv[i as int],
                    ]);
                } else {
                    assert(out.deep_view() =~= mask_filter(sv.take(i as int), keep0)
                        + Seq::<ImageView>::empty());
                }
            }
            i += 1;
        }
        proof {
            assert(sv.take(self.items.len() as int) =~= sv);
        }
        Images { items: out }
    }

    /// The names of all images, in catalog order.
    pub fn names(&self) -> (r: Vec<String>)
        ensures
            r.deep_view() == self@.map(|i: int, im: ImageView| im.name),
    {
        let mut r: Vec<String> = Vec::new();
        let mut i: usize = 0;
        while i < self.items.len()
            invariant
                i <= self.items.len(),
                r.deep_view().len() == i,
                forall|k: int|
                    0 <= k < i ==> r.deep_view()[k] == self.items.deep_view()[k].name,
            decreases self.items.len() - i,
        {
            let ghost r0 = r.deep_view();
            r.push(self.items[i].name.clone());
            proof {
                assert(r.deep_view() =~= r0.push(self.items.deep_view()[i as int].name));
            }
            i += 1;
        }
        proof {
            assert(r.deep_view() =~= self@.map(|i: int, im: ImageView| im.name));
        }
        r
    }

    /// The image of the given name, if the catalog has one.
    pub fn get(&self, name: &str) -> (r: Option<&Image>)
        ensures
            match r {
                Some(im) => images_lookup(self@, name@) == Some(im@),
                None => images_lookup(self@, name@) is None,
            },
    {
        let ghost sv = self.items.deep_view();
        let mut i: usize = 0;
        proof {
            assert(sv.skip(0) =~= sv);
        }
        while i < self.items.len()
            invariant
                i <= self.items.len(),
                sv == self.items.deep_view(),
                images_lookup(sv, name@) == images_lookup(sv.skip(i as int), name@),
            decreases self.items.len() - i,
        {
            proof {
                assert(sv.skip(i as int)[0] == sv[i as int]);
                assert(sv.skip(i as int).skip(1) =~= sv.skip(i as int + 1));
            }
            if str_eq(self.items[i].name.as_str(), name) {
                return Some(&self.items[i]);
            }
            i += 1;
        }
        proof {
            assert(sv.skip(i as int).len() == 0);
        }
        None
    }

    /// The image of the given name, or an [`Error::UnknownImage`] naming it.
    pub fn get_result(&self, name: &str) -> (r: Result<&Image, Error>)
        ensures
            match r {
                Ok(im) => images_lookup(self@, name@) == Some(im@),
                Err(e) => images_lookup(self@, name@) is None && (e matches Error::UnknownImage(n)
                    && n@ == name@),
            },
    {
        match self.get(name) {
            Some(im) => Ok(im),
            None => Err(Error::UnknownImage(String::from_str(name))),
        }
    }

    /// Hands the images out, in catalog order.
    pub fn into_vec(self) -> (r: Vec<Image>)
        ensures
            r.deep_view() == self@,
    {
        self.items
    }
}

/// First modification time recorded under a file name.
pub open spec fn assoc_lookup_u64(m: Seq<(Seq<char>, u64)>, k: Seq<char>) -> Option<u64>
    decreases m.len(),
{
    if m.len() == 0 {
        None
    } else if m[0].0 == k {
        Some(m[0].1)
    } else {
        assoc_lookup_u64(m.skip(1), k)
    }
}

pub(crate) fn assoc_get_u64(m: &Vec<(String, u64)>, k: &str) -> (r: Option<u64>)
    ensures
        r == assoc_lookup_u64(m.deep_view(), k@),
{
    let ghost mv = m.deep_view();
    let mut i: usize = 0;
    proof {
        assert(mv.skip(0) =~= mv);
    }
    while i < m.len()
        invariant
            i <= m.len(),
            mv == m.deep_view(),
            assoc_lookup_u64(mv, k@) == assoc_lookup_u64(mv.skip(i as int), k@),
        decreases m.len() - i,
    {
        proof {
            assert(mv.skip(i as int)[0] == mv[i as int]);
            assert(mv.skip(i as int).skip(1) =~= mv.skip(i as int + 1));
        }
        if str_eq(m[i].0.as_str(), k) {
            return Some(m[i].1);
        }
        i += 1;
    }
    proof {
        assert(mv.skip(i as int).len() == 0);
    }
    None
}

/// Builds the loaded catalog from parsed entries.  The entries come from the
/// name-keyed catalog file, so they arrive name-sorted; the result keeps that
/// order.
pub fn available(entries: &Vec<(String, ImageEntry)>, config: &ImagesConfig, arch: &str) -> (r:
    Images)
    requires
        sorted_catalog(entries.deep_view()),
    ensures
        r.wf(),
        r@.len() == entries.deep_view().len(),
        forall|i: int|
            0 <= i < entries.deep_view().len() ==> r@[i] == (ImageView {
                url: r@[i].url,
                ..spec_image_base(
                    (#[trigger] entries.deep_view()[i]).0,
                    entries.deep_view()[i].1,
                    config.directory@,
                    config.update_after_days,
                )
            }),
{
    let ghost ev = entries.deep_view();
    let mut out: Vec<Image> = Vec::new();
    let mut i: usize = 0;
    while i < entries.len()
        invariant
            i <= entries.len(),
            ev == entries.deep_view(),
            out.deep_view().len() == i,
            forall|k: int|
                0 <= k < i ==> out.deep_view()[k] == (ImageView {
                    url: out.deep_view()[k].url,
                    ..spec_image_base(
                        (#[trigger] ev[k]).0,
                        ev[k].1,
                        config.directory@,
                        config.update_after_days,
                    )
                }),
        decreases entries.len() - i,
    {
        let im = Image::from_entry(entries[i].0.as_str(), &entries[i].1, config, arch);
        out.push(im);
        i += 1;
    }
    let r = Images { items: out };
    proof {
        assert forall|a: int, b: int| 0 <= a < b < r@.len() implies lex_lt(
            r@[a].name,
            r@[b].name,
        ) by {
            assert(r@[a].name == ev[a].0);
            assert(r@[b].name == ev[b].0);
        }
    }
    r
}

/// Checks that a parsed catalog is strictly name-sorted, as [`available`] and
/// [`update_images`] expect of the catalog file.
pub fn sorted_entries(entries: &Vec<(String, ImageEntry)>) -> (r: bool)
    ensures
        r == sorted_catalog(entries.deep_view()),
{
    let ghost ev = entries.deep_view();
    if entries.len() == 0 {
        return true;
    }
    let mut i: usize = 0;
    while i + 1 < entries.len()
        invariant
            i < entries.len(),
            ev == entries.deep_view(),
            forall|k: int| 0 <= k < i ==> lex_lt((#[trigger] ev[k]).0, ev[k + 1].0),
        decreases entries.len() - i,
    {
        if !str_lt(entries[i].0.as_str(), entries[i + 1].0.as_str()) {
            proof {
                assert(!lex_lt(ev[i as int].0, ev[i as int + 1].0));
            }
            return false;
        }
        i += 1;
    }
    proof {
        assert forall|a: int, b: int| 0 <= a < b < ev.len() implies lex_lt(ev[a].0, ev[b].0) by {
            lemma_sorted_adjacent(ev, a, b);
        }
    }
    true
}

proof fn lemma_sorted_adjacent(ev: Seq<(Seq<char>, ImageEntryView)>, a: int, b: int)
    requires
        forall|k: int| 0 <= k < ev.len() - 1 ==> lex_lt((#[trigger] ev[k]).0, ev[k + 1].0),
        0 <= a < b < ev.len(),
    ensures
        lex_lt(ev[a].0, ev[b].0),
    decreases b - a,
{
    if b == a + 1 {
    } else {
        lemma_sorted_adjacent(ev, a, b - 1);
        lemma_lex_lt_trans(ev[a].0, ev[b - 1].0, ev[b].0);
    }
}

/// The path under which the catalog file lives.
pub fn images_file_path(config_dir: &str) -> (r: String)
    ensures
        r@ == config_dir@ + "/"@ + "images.toml"@,
{
    join_path(config_dir, "images.toml")
}

/// The path of an image file in a directory, when the directory holds it.
pub fn path(images_dir: &str, dir_files: &Vec<String>, image_name: &str) -> (r: Result<
    String,
    Error,
>)
    ensures
        match r {
            Ok(p) => dir_files.deep_view().contains(image_name@) && p@ == images_dir@ + "/"@
                + image_name@,
            Err(e) => !dir_files.deep_view().contains(image_name@) && (e matches
                Error::ImageDoesNotExists(n) && n@ == image_name@),
        },
{
    if contains_string(dir_files, image_name) {
        Ok(join_path(images_dir, image_name))
    } else {
        Err(Error::ImageDoesNotExists(String::from_str(image_name)))
    }
}

/// The directory that wins a search: the first whose contents hold the name.
pub open spec fn find_dir(
    dirs: Seq<(Seq<char>, Seq<Seq<char>>)>,
    name: Seq<char>,
) -> Option<Seq<char>>
    decreases dirs.len(),
{
    if dirs.len() == 0 {
        None
    } else if dirs[0].1.contains(name) {
        Some(dirs[0].0)
    } else {
        find_dir(dirs.skip(1), name)
    }
}

/// Searches the image directories, in caller priority order, each given as
/// its path and its contents; the first directory holding the name wins.
pub fn find(dirs: &Vec<(String, Vec<String>)>, image_name: &str) -> (r: Result<String, Error>)
    ensures
        match r {
            Ok(p) => find_dir(dirs.deep_view(), image_name@) matches Some(d) && p@ == d + "/"@
                + image_name@,
            Err(e) => find_dir(dirs.deep_view(), image_name@) is None && (e matches
                Error::ImageDoesNotExists(n) && n@ == image_name@),
        },
{
    let ghost dv = dirs.deep_view();
    let mut i: usize = 0;
    proof {
        assert(dv.skip(0) =~= dv);
    }
    while i < dirs.len()
        invariant
            i <= dirs.len(),
            dv == dirs.deep_view(),
            find_dir(dv, image_name@) == find_dir(dv.skip(i as int), image_name@),
        decreases dirs.len() - i,
    {
        proof {
            assert(dv.skip(i as int)[0] == dv[i as int]);
            assert(dv.skip(i as int).skip(1) =~= dv.skip(i as int + 1));
        }
        if contains_string(&dirs[i].1, image_name) {
            return Ok(join_path(dirs[i].0.as_str(), image_name));
        }
        i += 1;
    }
    proof {
        assert(dv.skip(i as int).len() == 0);
    }
    Err(Error::ImageDoesNotExists(String::from_str(image_name)))
}

/// The sorted, duplicate-free union of the given directories' contents.
pub fn list(dirs: &Vec<Vec<String>>) -> (r: Vec<String>)
    ensures
        crate::strings::sorted_strings(r.deep_view()),
        forall|x: Seq<char>|
            r.deep_view().contains(x) <==> exists|d: int|
                0 <= d < dirs.deep_view().len() && (#[trigger] dirs.deep_view()[d]).contains(x),
{
    let ghost dv = dirs.deep_view();
    let mut out: Vec<String> = Vec::new();
    let mut d: usize = 0;
    while d < dirs.len()
        invariant
            d <= dirs.len(),
            dv == dirs.deep_view(),
            crate::strings::sorted_strings(out.deep_view()),
            forall|x: Seq<char>|
                out.deep_view().contains(x) <==> exists|k: int|
                    0 <= k < d && (#[trigger] dv[k]).contains(x),
        decreases dirs.len() - d,
    {
        let mut f: usize = 0;
        while f < dirs[d].len()
            invariant
                d < dirs.len(),
                f <= dirs[d as int].len(),
                dv == dirs.deep_view(),
                crate::strings::sorted_strings(out.deep_view()),
                forall|x: Seq<char>|
                    out.deep_view().contains(x) <==> (exists|k: int|
                        0 <= k < d && (#[trigger] dv[k]).contains(x)) || exists|k: int|
                        0 <= k < f && dv[d as int][k] == x,
            decreases dirs[d as int].len() - f,
        {
            crate::strings::insert_sorted_string(&mut out, dirs[d][f].clone());
            proof {
                assert(dv[d as int][f as int] == dirs@[d as int]@[f as int]@);
            }
            f += 1;
        }
        proof {
            assert forall|x: Seq<char>| out.deep_view().contains(x) <==> (exists|k: int|
                0 <= k < d + 1 && (#[trigger] dv[k]).contains(x)) by {
                if out.deep_view().contains(x) {
                    if !(exists|k: int| 0 <= k < d && (#[trigger] dv[k]).contains(x)) {
                        let k = choose|k: int| 0 <= k < f && dv[d as int][k] == x;
                        assert(dv[d as int].contains(x));
                    }
                }
                if exists|k: int| 0 <= k < d + 1 && (#[trigger] dv[k]).contains(x) {
                    let k = choose|k: int| 0 <= k < d + 1 && (#[trigger] dv[k]).contains(x);
                    if k == d {
                        let m = choose|m: int| 0 <= m < dv[k].len() && dv[k][m] == x;
                        assert(dv[d as int][m] == x);
                    }
                }
            }
        }
        d += 1;
    }
    out
}

/// What the images directory holds after a pull of `name` whose download
/// yielded `downloaded`: a failed download (`None`) leaves the directory
/// untouched, byte for byte, and leaves nothing else behind; a successful one
/// replaces exactly the named file's bytes, or adds the file when it was
/// absent.
#[verifier::loop_isolation(false)]
pub fn commit_pull(dir: Vec<(String, Vec<u8>)>, name: &str, downloaded: Option<Vec<u8>>) -> (r:
    Vec<(String, Vec<u8>)>)
    ensures
        downloaded is None ==> r == dir,
        downloaded matches Some(b) ==> ((exists|i: int|
            0 <= i < dir.deep_view().len() && (#[trigger] dir.deep_view()[i]).0 == name@
                && r.deep_view() == dir.deep_view().update(i, (name@, b@))) || ((forall|k: int|
            0 <= k < dir.deep_view().len() ==> (#[trigger] dir.deep_view()[k]).0 != name@)
            && r.deep_view() == dir.deep_view().push((name@, b@)))),
{
    let ghost dv = dir.deep_view();
    match downloaded {
        None => dir,
        Some(b) => {
            let mut dir = dir;
            let mut i: usize = 0;
            while i < dir.len()
                invariant
                    i <= dir.len(),
                    dv == dir.deep_view(),
                    forall|k: int| 0 <= k < i ==> (#[trigger] dv[k]).0 != name@,
                decreases dir.len() - i,
            {
                if str_eq(dir[i].0.as_str(), name) {
                    proof {
                        assert(dv[i as int].0 == name@);
                    }
                    let ghost i0 = i as int;
                    dir.remove(i);
                    dir.insert(i, (String::from_str(name), b));
                    proof {
                        assert(dir.deep_view() =~~= dv.update(i0, (name@, b@)));
                    }
                    return dir;
                }
                i += 1;
            }
            dir.push((String::from_str(name), b));
            proof {
                assert(dir.deep_view() =~~= dv.push((name@, b@)));
            }
            dir
        },
    }
}

} // verus!
