use vstd::prelude::*;
use vstd::string::*;

use crate::images::{assoc_get_u64, assoc_lookup_u64};
use crate::strings::{clone_opt_string, clone_string_vec, contains_string, lex_lt, str_eq};
use crate::Error;

verus! {

/// How process liveness bears on resolution: never probed; probed with
/// non-running VMs silently dropped; probed with any non-running VM failing
/// the whole call; probed and reported with no effect on the set.
#[derive(Clone, Copy, Debug, PartialEq, Eq, Structural)]
pub enum WithPid {
    Without,
    Filter,
    Error,
    Option,
}

/// A declared VM specification, as stored: a concrete name, the declared
/// (possibly pattern) name it was expanded from, an optional parent to
/// inherit from, and the fields the cascade merges.  An unset field inherits.
pub struct VmSpec {
    pub name: String,
    pub folded_name: String,
    pub parent: Option<String>,
    pub tags: Vec<String>,
    pub image: Option<String>,
    pub memory: Option<u64>,
    pub nproc: Option<u64>,
    pub ssh_user: Option<String>,
    pub cloud_init: Option<bool>,
}

/// The mathematical value of a [`VmSpec`].
#[verifier::ext_equal]
pub ghost struct VmSpecView {
    pub name: Seq<char>,
    pub folded_name: Seq<char>,
    pub parent: Option<Seq<char>>,
    pub tags: Seq<Seq<char>>,
    pub image: Option<Seq<char>>,
    pub memory: Option<u64>,
    pub nproc: Option<u64>,
    pub ssh_user: Option<Seq<char>>,
    pub cloud_init: Option<bool>,
}

impl View for VmSpec {
    type V = VmSpecView;

    open spec fn view(&self) -> VmSpecView {
        VmSpecView {
            name: self.name@,
            folded_name: self.folded_name@,
            parent: self.parent.deep_view(),
            tags: self.tags.deep_view(),
            image: self.image.deep_view(),
            memory: self.memory,
            nproc: self.nproc,
            ssh_user: self.ssh_user.deep_view(),
            cloud_init: self.cloud_init,
        }
    }
}

impl DeepView for VmSpec {
    type V = VmSpecView;

    open spec fn deep_view(&self) -> VmSpecView {
        self.view()
    }
}

/// Copies a VM specification; the copy has the same mathematical value.
pub fn clone_vm_spec(s: &VmSpec) -> (r: VmSpec)
    ensures
        r@ == s@,
{
    let r = VmSpec {
        name: s.name.clone(),
        folded_name: s.folded_name.clone(),
        parent: clone_opt_string(&s.parent),
        tags: clone_string_vec(&s.tags),
        image: clone_opt_string(&s.image),
        memory: s.memory,
        nproc: s.nproc,
        ssh_user: clone_opt_string(&s.ssh_user),
        cloud_init: s.cloud_init,
    };
    proof {
        assert(r.tags.deep_view() =~= s.tags.deep_view());
        assert(r@ =~= s@);
    }
    r
}

/// A resolved VM: fully merged, rendered, and annotated with the live
/// process found for it, if liveness was probed at all.
pub struct Vm {
    pub name: String,
    pub folded_name: String,
    pub tags: Vec<String>,
    pub image: Option<String>,
    pub memory: Option<u64>,
    pub nproc: Option<u64>,
    pub ssh_user: Option<String>,
    pub cloud_init: Option<bool>,
    pub pid: Option<u64>,
}

/// The mathematical value of a [`Vm`].
#[verifier::ext_equal]
pub ghost struct VmView {
    pub name: Seq<char>,
    pub folded_name: Seq<char>,
    pub tags: Seq<Seq<char>>,
    pub image: Option<Seq<char>>,
    pub memory: Option<u64>,
    pub nproc: Option<u64>,
    pub ssh_user: Option<Seq<char>>,
    pub cloud_init: Option<bool>,
    pub pid: Option<u64>,
}

impl View for Vm {
    type V = VmView;

    open spec fn view(&self) -> VmView {
        VmView {
            name: self.name@,
            folded_name: self.folded_name@,
            tags: self.tags.deep_view(),
            image: self.image.deep_view(),
            memory: self.memory,
            nproc: self.nproc,
            ssh_user: self.ssh_user.deep_view(),
            cloud_init: self.cloud_init,
            pid: self.pid,
        }
    }
}

impl DeepView for Vm {
    type V = VmView;

    open spec fn deep_view(&self) -> VmView {
        self.view()
    }
}

impl Vm {
    /// Whether a live process was found for this VM.
    pub fn has_pid(&self) -> (r: bool)
        ensures
            r == (self@.pid is Some),
    {
        match self.pid {
            Some(_) => true,
            None => false,
        }
    }
}

/// The per-invocation selection criteria, accumulated by its setters and
/// spent by [`VmsCreator::create`].
pub struct VmsCreator {
    pub names: Vec<String>,
    pub parents: Vec<String>,
    pub tags: Vec<String>,
    pub all: bool,
    pub error_on_empty: bool,
    pub with_pid: WithPid,
    pub minimal_vm_config: bool,
    pub vm_config: Option<VmSpec>,
}

impl VmsCreator {
    /// A fresh criteria set: nothing selected, nothing demanded, liveness
    /// not probed.
    pub fn new() -> (r: VmsCreator)
        ensures
            r.names.deep_view() == Seq::<Seq<char>>::empty(),
            r.parents.deep_view() == Seq::<Seq<char>>::empty(),
            r.tags.deep_view() == Seq::<Seq<char>>::empty(),
            r.all == false,
            r.error_on_empty == false,
            r.with_pid == WithPid::Without,
            r.minimal_vm_config == false,
            r.vm_config is None,
    {
        let r = VmsCreator {
            names: Vec::new(),
            parents: Vec::new(),
            tags: Vec::new(),
            all: false,
            error_on_empty: false,
            with_pid: WithPid::Without,
            minimal_vm_config: false,
            vm_config: None,
        };
        proof {
            assert(r.names.deep_view() =~= Seq::<Seq<char>>::empty());
            assert(r.parents.deep_view() =~= Seq::<Seq<char>>::empty());
            assert(r.tags.deep_view() =~= Seq::<Seq<char>>::empty());
        }
        r
    }

    /// Adds one explicit name to the selection.
    pub fn name(&mut self, n: &str)
        ensures
            final(self).names.deep_view() == old(self).names.deep_view().push(n@),
            final(self).parents == old(self).parents,
            final(self).tags == old(self).tags,
            final(self).all == old(self).all,
            final(self).error_on_empty == old(self).error_on_empty,
            final(self).with_pid == old(self).with_pid,
            final(self).minimal_vm_config == old(self).minimal_vm_config,
            final(self).vm_config == old(self).vm_config,
    {
        let ghost n0 = self.names.deep_view();
        self.names.push(String::from_str(n));
        proof {
            assert(self.names.deep_view() =~= n0.push(n@));
        }
    }

    /// Adds a set of explicit names to the selection.
    pub fn names(&mut self, ns: &Vec<String>)
        ensures
            final(self).names.deep_view() == old(self).names.deep_view() + ns.deep_view(),
            final(self).parents == old(self).parents,
            final(self).tags == old(self).tags,
            final(self).all == old(self).all,
            final(self).error_on_empty == old(self).error_on_empty,
            final(self).with_pid == old(self).with_pid,
            final(self).minimal_vm_config == old(self).minimal_vm_config,
            final(self).vm_config == old(self).vm_config,
    {
        let ghost n0 = self.names.deep_view();
        let mut i: usize = 0;
        while i < ns.len()
            invariant
                i <= ns.len(),
                self.names.deep_view() == n0 + ns.deep_view().take(i as int),
                self.parents == old(self).parents,
                self.tags == old(self).tags,
                self.all == old(self).all,
                self.error_on_empty == old(self).error_on_empty,
                self.with_pid == old(self).with_pid,
                self.minimal_vm_config == old(self).minimal_vm_config,
                self.vm_config == old(self).vm_config,
            decreases ns.len() - i,
        {
            let ghost c0 = self.names.deep_view();
            self.names.push(ns[i].clone());
            proof {
                assert(self.names.deep_view() =~= c0.push(ns.deep_view()[i as int]));
                assert(self.names.deep_view() =~= n0 + ns.deep_view().take(i as int + 1));
            }
            i += 1;
        }
        proof {
            assert(ns.deep_view().take(ns.len() as int) =~= ns.deep_view());
            assert(self.names.deep_view() =~= n0 + ns.deep_view());
        }
    }

    /// Restricts the selection to VMs whose parent is among the given names.
    pub fn parents(&mut self, ps: &Vec<String>)
        ensures
            final(self).parents.deep_view() == old(self).parents.deep_view() + ps.deep_view(),
            final(self).names == old(self).names,
            final(self).tags == old(self).tags,
            final(self).all == old(self).all,
            final(self).error_on_empty == old(self).error_on_empty,
            final(self).with_pid == old(self).with_pid,
            final(self).minimal_vm_config == old(self).minimal_vm_config,
            final(self).vm_config == old(self).vm_config,
    {
        let ghost p0 = self.parents.deep_view();
        let mut i: usize = 0;
        while i < ps.len()
            invariant
                i <= ps.len(),
                self.parents.deep_view() == p0 + ps.deep_view().take(i as int),
                self.names == old(self).names,
                self.tags == old(self).tags,
                self.all == old(self).all,
                self.error_on_empty == old(self).error_on_empty,
                self.with_pid == old(self).with_pid,
                self.minimal_vm_config == old(self).minimal_vm_config,
                self.vm_config == old(self).vm_config,
            decreases ps.len() - i,
        {
            let ghost c0 = self.parents.deep_view();
            self.parents.push(ps[i].clone());
            proof {
                assert(self.parents.deep_view() =~= c0.push(ps.deep_view()[i as int]));
                assert(self.parents.deep_view() =~= p0 + ps.deep_view().take(i as int + 1));
            }
            i += 1;
        }
        proof {
            assert(ps.deep_view().take(ps.len() as int) =~= ps.deep_view());
            assert(self.parents.deep_view() =~= p0 + ps.deep_view());
        }
    }

    /// Restricts the selection to VMs carrying one of the given tags.
    pub fn tags(&mut self, ts: &Vec<String>)
        ensures
            final(self).tags.deep_view() == old(self).tags.deep_view() + ts.deep_view(),
            final(self).names == old(self).names,
            final(self).parents == old(self).parents,
            final(self).all == old(self).all,
            final(self).error_on_empty == old(self).error_on_empty,
            final(self).with_pid == old(self).with_pid,
            final(self).minimal_vm_config == old(self).minimal_vm_config,
            final(self).vm_config == old(self).vm_config,
    {
        let ghost t0 = self.tags.deep_view();
        let mut i: usize = 0;
        while i < ts.len()
            invariant
                i <= ts.len(),
                self.tags.deep_view() == t0 + ts.deep_view().take(i as int),
                self.names == old(self).names,
                self.parents == old(self).parents,
                self.all == old(self).all,
                self.error_on_empty == old(self).error_on_empty,
                self.with_pid == old(self).with_pid,
                self.minimal_vm_config == old(self).minimal_vm_config,
                self.vm_config == old(self).vm_config,
            decreases ts.len() - i,
        {
            let ghost c0 = self.tags.deep_view();
            self.tags.push(ts[i].clone());
            proof {
                assert(self.tags.deep_view() =~= c0.push(ts.deep_view()[i as int]));
                assert(self.tags.deep_view() =~= t0 + ts.deep_view().take(i as int + 1));
            }
            i += 1;
        }
        proof {
            assert(ts.deep_view().take(ts.len() as int) =~= ts.deep_view());
            assert(self.tags.deep_view() =~= t0 + ts.deep_view());
        }
    }

    /// Selects every declared VM, unless explicit names narrow the set.
    pub fn all(&mut self)
        ensures
            *final(self) == (VmsCreator { all: true, ..*old(self) }),
    {
        self.all = true;
    }

    /// Whether the selection is the select-all base set.
    pub fn is_all(&self) -> (r: bool)
        ensures
            r == self.all,
    {
        self.all
    }

    /// Demands a non-empty result.
    pub fn error_on_empty(&mut self)
        ensures
            *final(self) == (VmsCreator { error_on_empty: true, ..*old(self) }),
    {
        self.error_on_empty = true;
    }

    /// Sets the liveness mode.
    pub fn with_pid(&mut self, wp: WithPid)
        ensures
            *final(self) == (VmsCreator { with_pid: wp, ..*old(self) }),
    {
        self.with_pid = wp;
    }

    /// Skips the cascading defaults: each VM resolves to its own spec alone.
    pub fn minimal_vm_config(&mut self)
        ensures
            *final(self) == (VmsCreator { minimal_vm_config: true, ..*old(self) }),
    {
        self.minimal_vm_config = true;
    }

    /// Sets the ad hoc override applied atop every resolved VM.
    pub fn vm_config(&mut self, over: VmSpec)
        ensures
            *final(self) == (VmsCreator { vm_config: Some(over), ..*old(self) }),
    {
        self.vm_config = Some(over);
    }
}

/// The concrete VMs one declared spec fans out into: its name may list
/// several comma-separated concrete names, each yielding a VM of that name
/// whose folded name is the declared pattern; a name without commas yields
/// the one VM it spells.
pub open spec fn spec_expand_spec(s: VmSpecView) -> Seq<VmSpecView> {
    crate::strings::spec_split(s.name, ',').map(
        |i: int, n: Seq<char>| VmSpecView { name: n, folded_name: s.name, ..s },
    )
}

/// The fan-out of a whole list of declared specs, in declaration order.
pub open spec fn spec_expand_all(sv: Seq<VmSpecView>) -> Seq<VmSpecView>
    decreases sv.len(),
{
    if sv.len() == 0 {
        Seq::empty()
    } else {
        spec_expand_spec(sv[0]) + spec_expand_all(sv.skip(1))
    }
}

proof fn lemma_expand_all_push(p: Seq<VmSpecView>, x: VmSpecView)
    ensures
        spec_expand_all(p.push(x)) == spec_expand_all(p) + spec_expand_spec(x),
    decreases p.len(),
{
    reveal_with_fuel(spec_expand_all, 3);
    if p.len() == 0 {
        assert(p.push(x)[0] == x);
        assert(p.push(x).skip(1) =~= Seq::<VmSpecView>::empty());
        assert(spec_expand_all(p.push(x)) =~= spec_expand_all(p) + spec_expand_spec(x));
    } else {
        assert(p.push(x)[0] == p[0]);
        assert(p.push(x).skip(1) =~= p.skip(1).push(x));
        lemma_expand_all_push(p.skip(1), x);
        assert(spec_expand_all(p.push(x)) == spec_expand_spec(p[0]) + spec_expand_all(
            p.skip(1).push(x),
        ));
        assert(spec_expand_all(p) == spec_expand_spec(p[0]) + spec_expand_all(p.skip(1)));
        assert(spec_expand_all(p.push(x)) =~= spec_expand_all(p) + spec_expand_spec(x));
    }
}

/// Expands every declared spec into its concrete VMs, as
/// [`spec_expand_all`] says: one entry per concrete name, each carrying the
/// declared pattern as its folded name.
pub fn expand_specs(specs: &Vec<VmSpec>) -> (r: Vec<VmSpec>)
    ensures
        r.deep_view() == spec_expand_all(specs.deep_view()),
{
    let ghost sv = specs.deep_view();
    let mut out: Vec<VmSpec> = Vec::new();
    let mut i: usize = 0;
    proof {
        assert(sv.take(0) =~= Seq::<VmSpecView>::empty());
        assert(out.deep_view() =~= spec_expand_all(sv.take(0)));
    }
    while i < specs.len()
        invariant
            i <= specs.len(),
            sv == specs.deep_view(),
            out.deep_view() == spec_expand_all(sv.take(i as int)),
        decreases specs.len() - i,
    {
        let pieces = crate::strings::split_string(specs[i].name.as_str(), ',');
        let mut j: usize = 0;
        while j < pieces.len()
            invariant
                i < specs.len(),
                j <= pieces.len(),
                sv == specs.deep_view(),
                pieces.deep_view() == crate::strings::spec_split(sv[i as int].name, ','),
                out.deep_view() == spec_expand_all(sv.take(i as int)) + spec_expand_spec(
                    sv[i as int],
                ).take(j as int),
            decreases pieces.len() - j,
        {
            let s = &specs[i];
            let vm = VmSpec {
                name: pieces[j].clone(),
                folded_name: s.name.clone(),
                parent: clone_opt_string(&s.parent),
                tags: clone_string_vec(&s.tags),
                image: clone_opt_string(&s.image),
                memory: s.memory,
                nproc: s.nproc,
                ssh_user: clone_opt_string(&s.ssh_user),
                cloud_init: s.cloud_init,
            };
            let ghost out0 = out.deep_view();
            proof {
                assert(vm.tags.deep_view() =~= s.tags.deep_view());
                assert(vm@ =~= spec_expand_spec(sv[i as int])[j as int]);
            }
            out.push(vm);
            proof {
                assert(out.deep_view() =~= out0.push(spec_expand_spec(sv[i as int])[j as int]));
                assert(spec_expand_spec(sv[i as int]).take(j as int + 1) =~= spec_expand_spec(
                    sv[i as int],
                ).take(j as int).push(spec_expand_spec(sv[i as int])[j as int]));
                assert(out.deep_view() =~= spec_expand_all(sv.take(i as int)) + spec_expand_spec(
                    sv[i as int],
                ).take(j as int + 1));
            }
            j += 1;
        }
        proof {
            assert(spec_expand_spec(sv[i as int]).take(pieces.len() as int) =~= spec_expand_spec(
                sv[i as int],
            ));
            lemma_expand_all_push(sv.take(i as int), sv[i as int]);
            assert(sv.take(i as int).push(sv[i as int]) =~= sv.take(i as int + 1));
        }
        i += 1;
    }
    proof {
        assert(sv.take(specs.len() as int) =~= sv);
    }
    out
}

/// Whether the criteria select a declared spec: explicit names narrow first
/// (the select-all flag is the base set only without them); an unset parent
/// or tag filter imposes nothing, a set one must be met.
pub open spec fn spec_selected(c: VmsCreator, s: VmSpecView) -> bool {
    let names = c.names.deep_view();
    let parents = c.parents.deep_view();
    let tags = c.tags.deep_view();
    &&& (if names.len() > 0 {
        names.contains(s.name)
    } else {
        c.all
    })
    &&& (parents.len() > 0 ==> match s.parent {
        Some(p) => parents.contains(p),
        None => false,
    })
    &&& (tags.len() > 0 ==> exists|t: Seq<char>| #[trigger] tags.contains(t) && s.tags.contains(t))
}

/// Whether any of the filter's tags is among the VM's tags.
fn any_tag_match(filter_tags: &Vec<String>, vm_tags: &Vec<String>) -> (r: bool)
    ensures
        r == (exists|t: Seq<char>| #[trigger] filter_tags.deep_view().contains(t)
            && vm_tags.deep_view().contains(t)),
{
    let mut i: usize = 0;
    while i < filter_tags.len()
        invariant
            i <= filter_tags.len(),
            forall|k: int|
                0 <= k < i ==> !vm_tags.deep_view().contains(#[trigger] filter_tags.deep_view()[k]),
        decreases filter_tags.len() - i,
    {
        if contains_string(vm_tags, filter_tags[i].as_str()) {
            proof {
                let t = filter_tags.deep_view()[i as int];
                assert(filter_tags.deep_view().contains(t));
            }
            return true;
        }
        i += 1;
    }
    proof {
        if exists|t: Seq<char>| #[trigger] filter_tags.deep_view().contains(t)
            && vm_tags.deep_view().contains(t) {
            let t = choose|t: Seq<char>| #[trigger] filter_tags.deep_view().contains(t)
                && vm_tags.deep_view().contains(t);
            let k = choose|k: int|
                0 <= k < filter_tags.deep_view().len() && filter_tags.deep_view()[k] == t;
            assert(false);
        }
    }
    false
}

impl VmsCreator {
    /// Decides [`spec_selected`] on one declared spec.
    pub fn selects(&self, s: &VmSpec) -> (r: bool)
        ensures
            r == spec_selected(*self, s@),
    {
        let name_ok = if self.names.len() > 0 {
            contains_string(&self.names, s.name.as_str())
        } else {
            self.all
        };
        if !name_ok {
            return false;
        }
        if self.parents.len() > 0 {
            let parent_ok = match &s.parent {
                Some(p) => contains_string(&self.parents, p.as_str()),
                None => false,
            };
            if !parent_ok {
                return false;
            }
        }
        if self.tags.len() > 0 {
            if !any_tag_match(&self.tags, &s.tags) {
                return false;
            }
        }
        true
    }
}

/// What the liveness mode makes of the resolved set: `Error` demands a live
/// process on every VM, naming the first one without; `Filter` keeps exactly
/// the live ones; the other modes pass the set through.
pub open spec fn spec_apply_mode(mode: WithPid, l: Seq<VmView>) -> Result<Seq<VmView>, Seq<char>> {
    match mode {
        WithPid::Error => spec_check_running(l),
        WithPid::Filter => Ok(l.filter(|v: VmView| v.pid is Some)),
        _ => Ok(l),
    }
}

/// `Error`-mode check: the whole set survives only when every VM has a live
/// process; otherwise the first without one is named.
pub open spec fn spec_check_running(l: Seq<VmView>) -> Result<Seq<VmView>, Seq<char>>
    decreases l.len(),
{
    if l.len() == 0 {
        Ok(l)
    } else if l[0].pid is None {
        Err(l[0].name)
    } else {
        match spec_check_running(l.skip(1)) {
            Ok(_) => Ok(l),
            Err(n) => Err(n),
        }
    }
}

proof fn lemma_check_running_prefix(l: Seq<VmView>, i: int)
    requires
        0 <= i <= l.len(),
        forall|k: int| 0 <= k < i ==> (#[trigger] l[k]).pid is Some,
    ensures
        i == l.len() ==> spec_check_running(l) == Ok::<Seq<VmView>, Seq<char>>(l),
        i < l.len() && l[i].pid is None ==> spec_check_running(l) == Err::<
            Seq<VmView>,
            Seq<char>,
        >(l[i].name),
    decreases l.len(),
{
    if l.len() > 0 && i > 0 {
        let t = l.skip(1);
        assert forall|k: int| 0 <= k < i - 1 implies (#[trigger] t[k]).pid is Some by {
            assert(t[k] == l[k + 1]);
        }
        lemma_check_running_prefix(t, i - 1);
        if i < l.len() {
            assert(t[i - 1] == l[i]);
        }
    }
}

/// Applies the liveness mode to a resolved set, as [`spec_apply_mode`] says.
#[verifier::loop_isolation(false)]
pub fn apply_with_pid(mode: &WithPid, vms: Vec<Vm>) -> (r: Result<Vec<Vm>, Error>)
    ensures
        match r {
            Ok(l) => spec_apply_mode(*mode, vms.deep_view()) == Ok::<Seq<VmView>, Seq<char>>(
                l.deep_view(),
            ),
            Err(e) => e matches Error::NotRunning(n) && spec_apply_mode(*mode, vms.deep_view())
                == Err::<Seq<VmView>, Seq<char>>(n@),
        },
{
    let ghost lv = vms.deep_view();
    match mode {
        WithPid::Without => Ok(vms),
        WithPid::Option => Ok(vms),
        WithPid::Error => {
            let mut i: usize = 0;
            while i < vms.len()
                invariant
                    i <= vms.len(),
                    lv == vms.deep_view(),
                    forall|k: int| 0 <= k < i ==> (#[trigger] lv[k]).pid is Some,
                decreases vms.len() - i,
            {
                if !vms[i].has_pid() {
                    proof {
                        lemma_check_running_prefix(lv, i as int);
                    }
                    return Err(Error::NotRunning(vms[i].name.clone()));
                }
                i += 1;
            }
            proof {
                lemma_check_running_prefix(lv, vms.len() as int);
            }
            Ok(vms)
        },
        WithPid::Filter => {
            let ghost p = |v: VmView| v.pid is Some;
            let mut out: Vec<Vm> = Vec::new();
            let mut i: usize = 0;
            proof {
                reveal(Seq::filter);
                assert(lv.take(0) =~= Seq::<VmView>::empty());
                assert(out.deep_view() =~= lv.take(0).filter(p));
            }
            while i < vms.len()
                invariant
                    i <= vms.len(),
                    lv == vms.deep_view(),
                    p == (|v: VmView| v.pid is Some),
                    out.deep_view() == lv.take(i as int).filter(p),
                decreases vms.len() - i,
            {
                let ghost out0 = out.deep_view();
                let keep = vms[i].has_pid();
                if keep {
                    out.push(clone_vm(&vms[i]));
                }
                proof {
                    reveal(Seq::filter);
                    assert(lv.take(i as int + 1).drop_last() =~= lv.take(i as int));
                    assert(lv.take(i as int + 1).last() == lv[i as int]);
                    if keep {
                        assert(out.deep_view() =~= out0.push(lv[i as int]));
                    } else {
                        assert(out.deep_view() =~= out0);
                    }
                }
                i += 1;
            }
            proof {
                assert(lv.take(vms.len() as int) =~= lv);
            }
            Ok(out)
        },
    }
}

/// The index of the first spec with the given name.
pub open spec fn index_of_vm(specs: Seq<VmSpecView>, name: Seq<char>) -> Option<int>
    decreases specs.len(),
{
    if specs.len() == 0 {
        None
    } else if specs[0].name == name {
        Some(0int)
    } else {
        match index_of_vm(specs.skip(1), name) {
            Some(j) => Some(j + 1),
            None => None,
        }
    }
}

proof fn lemma_index_of_found(specs: Seq<VmSpecView>, name: Seq<char>, i: int)
    requires
        0 <= i < specs.len(),
        specs[i].name == name,
        forall|k: int| 0 <= k < i ==> (#[trigger] specs[k]).name != name,
    ensures
        index_of_vm(specs, name) == Some(i),
    decreases i,
{
    if i > 0 {
        let t = specs.skip(1);
        assert forall|k: int| 0 <= k < i - 1 implies (#[trigger] t[k]).name != name by {
            assert(t[k] == specs[k + 1]);
        }
        assert(t[i - 1] == specs[i]);
        lemma_index_of_found(t, name, i - 1);
    }
}

proof fn lemma_index_of_none(specs: Seq<VmSpecView>, name: Seq<char>)
    requires
        forall|k: int| 0 <= k < specs.len() ==> (#[trigger] specs[k]).name != name,
    ensures
        index_of_vm(specs, name) is None,
    decreases specs.len(),
{
    if specs.len() > 0 {
        let t = specs.skip(1);
        assert forall|k: int| 0 <= k < t.len() implies (#[trigger] t[k]).name != name by {
            assert(t[k] == specs[k + 1]);
        }
        lemma_index_of_none(t, name);
    }
}

/// Finds the declared spec of the given name.
fn find_spec(specs: &Vec<VmSpec>, name: &str) -> (r: Option<usize>)
    ensures
        match r {
            Some(i) => i < specs.len() && index_of_vm(specs.deep_view(), name@) == Some(i as int),
            None => index_of_vm(specs.deep_view(), name@) is None,
        },
{
    let ghost sv = specs.deep_view();
    let mut i: usize = 0;
    while i < specs.len()
        invariant
            i <= specs.len(),
            sv == specs.deep_view(),
            forall|k: int| 0 <= k < i ==> (#[trigger] sv[k]).name != name@,
        decreases specs.len() - i,
    {
        if str_eq(specs[i].name.as_str(), name) {
            proof {
                lemma_index_of_found(sv, name@, i as int);
            }
            return Some(i);
        }
        i += 1;
    }
    proof {
        lemma_index_of_none(sv, name@);
    }
    None
}

/// Child-over-parent merge of one cascade step: a set field of the child
/// wins, an unset one inherits; the identity fields always stay the child's.
pub open spec fn spec_overlay(child: VmSpecView, parent: VmSpecView) -> VmSpecView {
    VmSpecView {
        name: child.name,
        folded_name: child.folded_name,
        parent: child.parent,
        tags: if child.tags.len() > 0 {
            child.tags
        } else {
            parent.tags
        },
        image: match child.image {
            Some(v) => Some(v),
            None => parent.image,
        },
        memory: match child.memory {
            Some(v) => Some(v),
            None => parent.memory,
        },
        nproc: match child.nproc {
            Some(v) => Some(v),
            None => parent.nproc,
        },
        ssh_user: match child.ssh_user {
            Some(v) => Some(v),
            None => parent.ssh_user,
        },
        cloud_init: match child.cloud_init {
            Some(v) => Some(v),
            None => parent.cloud_init,
        },
    }
}

/// How a parent-chain walk ends: a fully merged spec; a parent name with no
/// spec behind it; or a chain that never reaches a root within the walk's
/// budget, which a chain on distinct names can only do by looping.
#[verifier::ext_equal]
pub ghost enum CascadeOutcome {
    Done(VmSpecView),
    MissingParent(Seq<char>),
    Cyclic,
}

/// The effective configuration of the spec at `idx`: its parent chain walked
/// to the root, children overriding parents field by field, with at most
/// `fuel` parent steps.
pub open spec fn spec_cascade(specs: Seq<VmSpecView>, idx: int, fuel: nat) -> CascadeOutcome
    decreases fuel,
{
    let s = specs[idx];
    match s.parent {
        None => CascadeOutcome::Done(s),
        Some(p) => match index_of_vm(specs, p) {
            None => CascadeOutcome::MissingParent(p),
            Some(j) => if fuel == 0 {
                CascadeOutcome::Cyclic
            } else {
                match spec_cascade(specs, j, (fuel - 1) as nat) {
                    CascadeOutcome::Done(pe) => CascadeOutcome::Done(spec_overlay(s, pe)),
                    o => o,
                }
            },
        },
    }
}

proof fn lemma_cascade_absorbs(specs: Seq<VmSpecView>, idx: int, fuel: nat)
    ensures
        spec_cascade(specs, idx, fuel) matches CascadeOutcome::Done(pe) ==> spec_overlay(
            specs[idx],
            pe,
        ) =~= pe,
    decreases fuel,
{
    let s = specs[idx];
    match s.parent {
        None => {
            assert(spec_overlay(s, s) =~= s);
        },
        Some(p) => {
            if index_of_vm(specs, p) is Some && fuel > 0 {
                let j = index_of_vm(specs, p)->Some_0;
                lemma_cascade_absorbs(specs, j, (fuel - 1) as nat);
            }
        },
    }
}

/// One cascade step, executably.
fn overlay_spec_step(child: &VmSpec, parent: &VmSpec) -> (r: VmSpec)
    ensures
        r@ == spec_overlay(child@, parent@),
{
    let tags = if child.tags.len() > 0 {
        clone_string_vec(&child.tags)
    } else {
        clone_string_vec(&parent.tags)
    };
    let r = VmSpec {
        name: child.name.clone(),
        folded_name: child.folded_name.clone(),
        parent: clone_opt_string(&child.parent),
        tags,
        image: match &child.image {
            Some(v) => Some(v.clone()),
            None => clone_opt_string(&parent.image),
        },
        memory: match child.memory {
            Some(v) => Some(v),
            None => parent.memory,
        },
        nproc: match child.nproc {
            Some(v) => Some(v),
            None => parent.nproc,
        },
        ssh_user: match &child.ssh_user {
            Some(v) => Some(v.clone()),
            None => clone_opt_string(&parent.ssh_user),
        },
        cloud_init: match child.cloud_init {
            Some(v) => Some(v),
            None => parent.cloud_init,
        },
    };
    proof {
        assert(r@ =~= spec_overlay(child@, parent@));
    }
    r
}

/// Walks a spec's parent chain to its root and merges it into an effective
/// spec, children overriding parents.  A parent name with no spec behind it
/// fails with [`Error::UnknownParent`]; a chain still unfinished after as
/// many steps as there are specs can only be looping, and fails with
/// [`Error::CyclicParent`] naming a spec on the loop.
#[verifier::loop_isolation(false)]
pub fn resolve_spec(specs: &Vec<VmSpec>, start: usize) -> (r: Result<VmSpec, Error>)
    requires
        start < specs.len(),
    ensures
        match r {
            Ok(e) => spec_cascade(specs.deep_view(), start as int, specs.len() as nat)
                == CascadeOutcome::Done(e@),
            Err(e) => match e {
                Error::UnknownParent(p) => spec_cascade(
                    specs.deep_view(),
                    start as int,
                    specs.len() as nat,
                ) == CascadeOutcome::MissingParent(p@),
                Error::CyclicParent(_) => spec_cascade(
                    specs.deep_view(),
                    start as int,
                    specs.len() as nat,
                ) is Cyclic,
                _ => false,
            },
        },
{
    let ghost sv = specs.deep_view();
    let ghost n = specs.len() as nat;
    let mut eff = clone_vm_spec(&specs[start]);
    let mut cur: usize = start;
    let mut fuel: usize = specs.len();
    proof {
        assert(spec_overlay(eff@, sv[start as int]) =~= eff@);
    }
    loop
        invariant
            cur < specs.len(),
            spec_overlay(eff@, sv[cur as int]) == eff@,
            (match spec_cascade(sv, cur as int, fuel as nat) {
                CascadeOutcome::Done(pe) => spec_cascade(sv, start as int, n)
                    == CascadeOutcome::Done(spec_overlay(eff@, pe)),
                CascadeOutcome::MissingParent(p) => spec_cascade(sv, start as int, n)
                    == CascadeOutcome::MissingParent(p),
                CascadeOutcome::Cyclic => spec_cascade(sv, start as int, n)
                    is Cyclic,
            }),
        decreases fuel,
    {
        let parent = clone_opt_string(&specs[cur].parent);
        match parent {
            None => {
                proof {
                    assert(spec_cascade(sv, cur as int, fuel as nat) == CascadeOutcome::Done(
                        sv[cur as int],
                    ));
                    assert(spec_cascade(sv, start as int, n) == CascadeOutcome::Done(eff@));
                }
                return Ok(eff);
            },
            Some(p) => {
                match find_spec(specs, p.as_str()) {
                    None => {
                        proof {
                            assert(spec_cascade(sv, cur as int, fuel as nat)
                                == CascadeOutcome::MissingParent(p@));
                        }
                        return Err(Error::UnknownParent(p));
                    },
                    Some(j) => {
                        if fuel == 0 {
                            proof {
                                assert(spec_cascade(sv, cur as int, 0) == CascadeOutcome::Cyclic);
                            }
                            return Err(Error::CyclicParent(p));
                        }
                        let new_eff = overlay_spec_step(&eff, &specs[j]);
                        proof {
                            let prev = spec_cascade(sv, j as int, (fuel - 1) as nat);
                            lemma_cascade_absorbs(sv, j as int, (fuel - 1) as nat);
                            match prev {
                                CascadeOutcome::Done(pe) => {
                                    assert(spec_cascade(sv, cur as int, fuel as nat)
                                        == CascadeOutcome::Done(spec_overlay(sv[cur as int], pe)));
                                    assert(spec_overlay(eff@, spec_overlay(sv[cur as int], pe))
                                        =~= spec_overlay(new_eff@, pe));
                                    assert(spec_overlay(new_eff@, sv[j as int]) =~= new_eff@);
                                },
                                CascadeOutcome::MissingParent(_) => {
                                    assert(spec_overlay(new_eff@, sv[j as int]) =~= new_eff@);
                                },
                                CascadeOutcome::Cyclic => {
                                    assert(spec_overlay(new_eff@, sv[j as int]) =~= new_eff@);
                                },
                            }
                        }
                        eff = new_eff;
                        cur = j;
                        fuel = fuel - 1;
                    },
                }
            },
        }
    }
}

/// How the resolution of one selected spec can fail, apart from a template
/// that does not render (which no spec value can pin down).
#[verifier::ext_equal]
pub ghost enum VmFail {
    MissingParent(Seq<char>),
    Cyclic,
}

/// The effective spec at `idx` under the criteria: the parent cascade, or
/// the spec alone when minimal configuration was asked for.
pub open spec fn spec_effective(c: VmsCreator, sv: Seq<VmSpecView>, i: int) -> CascadeOutcome {
    if c.minimal_vm_config {
        CascadeOutcome::Done(sv[i])
    } else {
        spec_cascade(sv, i, sv.len() as nat)
    }
}

/// The ad hoc override applied atop a resolved spec: a set field of the
/// override wins; the identity fields stay the VM's own.
pub open spec fn spec_apply_override(eff: VmSpecView, o: VmSpecView) -> VmSpecView {
    VmSpecView {
        name: eff.name,
        folded_name: eff.folded_name,
        parent: eff.parent,
        tags: if o.tags.len() > 0 {
            o.tags
        } else {
            eff.tags
        },
        image: match o.image {
            Some(v) => Some(v),
            None => eff.image,
        },
        memory: match o.memory {
            Some(v) => Some(v),
            None => eff.memory,
        },
        nproc: match o.nproc {
            Some(v) => Some(v),
            None => eff.nproc,
        },
        ssh_user: match o.ssh_user {
            Some(v) => Some(v),
            None => eff.ssh_user,
        },
        cloud_init: match o.cloud_init {
            Some(v) => Some(v),
            None => eff.cloud_init,
        },
    }
}

/// The criteria's override step.
pub open spec fn spec_with_override(c: VmsCreator, eff: VmSpecView) -> VmSpecView {
    match c.vm_config {
        Some(o) => spec_apply_override(eff, o@),
        None => eff,
    }
}

fn apply_override_step(eff: &VmSpec, o: &VmSpec) -> (r: VmSpec)
    ensures
        r@ == spec_apply_override(eff@, o@),
{
    let tags = if o.tags.len() > 0 {
        clone_string_vec(&o.tags)
    } else {
        clone_string_vec(&eff.tags)
    };
    let r = VmSpec {
        name: eff.name.clone(),
        folded_name: eff.folded_name.clone(),
        parent: clone_opt_string(&eff.parent),
        tags,
        image: match &o.image {
            Some(v) => Some(v.clone()),
            None => clone_opt_string(&eff.image),
        },
        memory: match o.memory {
            Some(v) => Some(v),
            None => eff.memory,
        },
        nproc: match o.nproc {
            Some(v) => Some(v),
            None => eff.nproc,
        },
        ssh_user: match &o.ssh_user {
            Some(v) => Some(v.clone()),
            None => clone_opt_string(&eff.ssh_user),
        },
        cloud_init: match o.cloud_init {
            Some(v) => Some(v),
            None => eff.cloud_init,
        },
    };
    proof {
        assert(r@ =~= spec_apply_override(eff@, o@));
    }
    r
}

/// How an actual resolved VM relates to its pipeline value: equal on every
/// field except the two templated ones, `image` and `ssh_user`, whose texts
/// went through the renderer and are carried as opaque values; whether each
/// is present is still pinned.
pub open spec fn spec_rendered_from(p: VmView, a: VmView) -> bool {
    &&& a == (VmView { image: a.image, ssh_user: a.ssh_user, ..p })
    &&& (p.image is Some <==> a.image is Some)
    &&& (p.ssh_user is Some <==> a.ssh_user is Some)
}

/// The process id attached to a VM: none at all under `Without`, else
/// whatever the probe found under the VM's name.
pub open spec fn spec_pid_for(c: VmsCreator, pids: Seq<(Seq<char>, u64)>, name: Seq<char>) -> Option<
    u64,
> {
    if c.with_pid == WithPid::Without {
        None
    } else {
        assoc_lookup_u64(pids, name)
    }
}

/// The resolved VM an effective spec becomes, its templated fields still
/// holding their template texts.
pub open spec fn spec_vm_of(eff: VmSpecView, pid: Option<u64>) -> VmView {
    VmView {
        name: eff.name,
        folded_name: eff.folded_name,
        tags: eff.tags,
        image: eff.image,
        memory: eff.memory,
        nproc: eff.nproc,
        ssh_user: eff.ssh_user,
        cloud_init: eff.cloud_init,
        pid: pid,
    }
}

/// The resolution pipeline over the declared specs from `i` on: each
/// selected spec is cascaded, overridden and annotated, in storage order;
/// the first failure aborts the whole resolution.  Template rendering is
/// left out here: its outcome is opaque, and [`VmsCreator::create`] relates
/// each actual VM to its pipeline value by [`spec_rendered_from`].
pub open spec fn spec_resolve_all(
    c: VmsCreator,
    sv: Seq<VmSpecView>,
    pids: Seq<(Seq<char>, u64)>,
    i: int,
) -> Result<Seq<VmView>, VmFail>
    decreases sv.len() - i,
{
    if i < 0 || i >= sv.len() {
        Ok(Seq::empty())
    } else {
        let rest = spec_resolve_all(c, sv, pids, i + 1);
        if !spec_selected(c, sv[i]) {
            rest
        } else {
            match spec_effective(c, sv, i) {
                CascadeOutcome::Done(eff0) => {
                    let eff = spec_with_override(c, eff0);
                    match rest {
                        Ok(l) => Ok(seq![spec_vm_of(eff, spec_pid_for(c, pids, eff.name))] + l),
                        Err(f) => Err(f),
                    }
                },
                CascadeOutcome::MissingParent(p) => Err(VmFail::MissingParent(p)),
                CascadeOutcome::Cyclic => Err(VmFail::Cyclic),
            }
        }
    }
}

proof fn lemma_cascade_keeps_name(specs: Seq<VmSpecView>, idx: int, fuel: nat)
    ensures
        spec_cascade(specs, idx, fuel) matches CascadeOutcome::Done(pe) ==> pe.name
            == specs[idx].name,
    decreases fuel,
{
    match specs[idx].parent {
        None => {},
        Some(p) => {
            if index_of_vm(specs, p) is Some && fuel > 0 {
                let j = index_of_vm(specs, p)->Some_0;
                lemma_cascade_keeps_name(specs, j, (fuel - 1) as nat);
            }
        },
    }
}

proof fn lemma_resolve_all_sorted(
    c: VmsCreator,
    sv: Seq<VmSpecView>,
    pids: Seq<(Seq<char>, u64)>,
    i: int,
)
    requires
        forall|a: int, b: int| 0 <= a < b < sv.len() ==> lex_lt(
            (#[trigger] sv[a]).name,
            (#[trigger] sv[b]).name,
        ),
        0 <= i,
    ensures
        spec_resolve_all(c, sv, pids, i) matches Ok(l) ==> ((forall|k1: int, k2: int|
            0 <= k1 < k2 < l.len() ==> lex_lt((#[trigger] l[k1]).name, (#[trigger] l[k2]).name))
            && (forall|k: int|
            0 <= k < l.len() ==> exists|j: int|
                i <= j < sv.len() && (#[trigger] l[k]).name == sv[j].name)),
    decreases sv.len() - i,
{
    if i >= sv.len() {
        return ;
    }
    lemma_resolve_all_sorted(c, sv, pids, i + 1);
    if spec_resolve_all(c, sv, pids, i) is Ok {
        let l = spec_resolve_all(c, sv, pids, i)->Ok_0;
        let rest = spec_resolve_all(c, sv, pids, i + 1);
        if !spec_selected(c, sv[i]) {
        } else {
            let lr = rest->Ok_0;
            // the VM emitted at `i` carries the spec's own name
            lemma_cascade_keeps_name(sv, i, sv.len() as nat);
            assert(l[0].name == sv[i].name);
            assert forall|k: int| 1 <= k < l.len() implies l[k] == lr[k - 1] by {}
            assert forall|k1: int, k2: int| 0 <= k1 < k2 < l.len() implies lex_lt(
                (#[trigger] l[k1]).name,
                (#[trigger] l[k2]).name,
            ) by {
                if k1 == 0 {
                    let j = choose|j: int|
                        i + 1 <= j < sv.len() && (#[trigger] lr[k2 - 1]).name == sv[j].name;
                    assert(lex_lt(sv[i].name, sv[j].name));
                }
            }
            assert forall|k: int| 0 <= k < l.len() implies exists|j: int|
                i <= j < sv.len() && (#[trigger] l[k]).name == sv[j].name by {
                if k == 0 {
                    assert(l[0].name == sv[i].name);
                } else {
                    let j = choose|j: int|
                        i + 1 <= j < sv.len() && (#[trigger] lr[k - 1]).name == sv[j].name;
                    assert(l[k].name == sv[j].name);
                }
            }
        }
    }
}

/// With the declared specs in name order, whatever the liveness mode lets
/// through of a rendering of the resolved set is in name order too:
/// listings are deterministic and scriptable.
pub proof fn lemma_create_ordered(
    c: VmsCreator,
    sv: Seq<VmSpecView>,
    pids: Seq<(Seq<char>, u64)>,
    a: Seq<VmView>,
)
    requires
        forall|x: int, y: int| 0 <= x < y < sv.len() ==> lex_lt(
            (#[trigger] sv[x]).name,
            (#[trigger] sv[y]).name,
        ),
        spec_renders_resolved(c, sv, pids, a),
    ensures
        spec_apply_mode(c.with_pid, a) matches Ok(l2) ==> (forall|k1: int, k2: int|
            0 <= k1 < k2 < l2.len() ==> lex_lt((#[trigger] l2[k1]).name, (#[trigger] l2[k2]).name)),
{
    lemma_resolve_all_sorted(c, sv, pids, 0);
    let l = spec_resolve_all(c, sv, pids, 0)->Ok_0;
    // the rendering keeps each VM's name, so `a` is name-sorted like `l`
    assert forall|k: int| 0 <= k < a.len() implies (#[trigger] a[k]).name == l[k].name by {
        assert(spec_rendered_from(l[k], a[k]));
    }
    match c.with_pid {
        WithPid::Filter => {
            crate::strings::lemma_sorted_filter(a, |v: VmView| v.pid is Some, |v: VmView| v.name);
        },
        WithPid::Error => {
            // a passing liveness check hands the list back unchanged
            assert(spec_check_running(a) matches Ok(l2) ==> l2 == a);
        },
        _ => {},
    }
}

/// Whether `a` is an element-wise rendering of the resolved pipeline: same
/// VMs in the same order, each related to its pipeline value by
/// [`spec_rendered_from`].
pub open spec fn spec_renders_resolved(
    c: VmsCreator,
    sv: Seq<VmSpecView>,
    pids: Seq<(Seq<char>, u64)>,
    a: Seq<VmView>,
) -> bool {
    spec_resolve_all(c, sv, pids, 0) matches Ok(l) && a.len() == l.len() && (forall|k: int|
        0 <= k < a.len() ==> spec_rendered_from(#[trigger] l[k], a[k]))
}

impl VmsCreator {
    /// Resolves the criteria against the declared specs and the probed
    /// process ids: selection, cascade, override, render and liveness mode,
    /// in that order, with the demanded-non-empty check last.  The rendered
    /// `image` and `ssh_user` texts are opaque; everything else about the
    /// result is pinned to the resolution pipeline.
    #[verifier::loop_isolation(false)]
    pub fn create(&self, specs: &Vec<VmSpec>, pids: &Vec<(String, u64)>) -> (r: Result<
        Vec<Vm>,
        Error,
    >)
        ensures
            match r {
                Ok(vms) => spec_resolve_all(*self, specs.deep_view(), pids.deep_view(), 0) is Ok
                    && (exists|a: Seq<VmView>|
                    spec_renders_resolved(
                        *self,
                        specs.deep_view(),
                        pids.deep_view(),
                        a,
                    ) && spec_apply_mode(self.with_pid, a) == Ok::<Seq<VmView>, Seq<char>>(
                        vms.deep_view(),
                    )) && (self.error_on_empty ==> vms.deep_view().len() > 0),
                Err(e) => match e {
                    Error::Render(nm) => (exists|j: int|
                        0 <= j < specs.deep_view().len() && spec_selected(
                            *self,
                            #[trigger] specs.deep_view()[j],
                        ) && (spec_effective(*self, specs.deep_view(), j)
                            matches CascadeOutcome::Done(e0) && spec_with_override(*self, e0).name
                            == nm@ && (spec_with_override(*self, e0).image is Some
                            || spec_with_override(*self, e0).ssh_user is Some))),
                    Error::UnknownParent(p) => spec_resolve_all(
                        *self,
                        specs.deep_view(),
                        pids.deep_view(),
                        0,
                    ) == Err::<Seq<VmView>, VmFail>(VmFail::MissingParent(p@)),
                    Error::CyclicParent(_) => spec_resolve_all(
                        *self,
                        specs.deep_view(),
                        pids.deep_view(),
                        0,
                    ) == Err::<Seq<VmView>, VmFail>(VmFail::Cyclic),
                    Error::NotRunning(nm) => spec_resolve_all(
                        *self,
                        specs.deep_view(),
                        pids.deep_view(),
                        0,
                    ) is Ok && (exists|a: Seq<VmView>|
                    spec_renders_resolved(
                        *self,
                        specs.deep_view(),
                        pids.deep_view(),
                        a,
                    ) && spec_apply_mode(self.with_pid, a) == Err::<Seq<VmView>, Seq<char>>(nm@)),
                    Error::NoMatchingVm => self.error_on_empty && spec_resolve_all(
                        *self,
                        specs.deep_view(),
                        pids.deep_view(),
                        0,
                    ) is Ok && (exists|a: Seq<VmView>|
                    spec_renders_resolved(
                        *self,
                        specs.deep_view(),
                        pids.deep_view(),
                        a,
                    ) && (spec_apply_mode(self.with_pid, a) matches Ok(l2) && l2.len() == 0)),
                    _ => false,
                },
            },
    {
        let ghost sv = specs.deep_view();
        let ghost pv = pids.deep_view();
        let mut out: Vec<Vm> = Vec::new();
        let ghost mut pipe: Seq<VmView> = Seq::empty();
        let mut i: usize = 0;
        proof {
            assert(out.deep_view() =~= Seq::<VmView>::empty());
        }
        while i < specs.len()
            invariant
                i <= specs.len(),
                pipe.len() == out.deep_view().len(),
                forall|k: int|
                    0 <= k < pipe.len() ==> spec_rendered_from(
                        #[trigger] pipe[k],
                        out.deep_view()[k],
                    ),
                (match spec_resolve_all(*self, sv, pv, i as int) {
                    Ok(l) => spec_resolve_all(*self, sv, pv, 0) == Ok::<Seq<VmView>, VmFail>(
                        pipe + l,
                    ),
                    Err(f) => spec_resolve_all(*self, sv, pv, 0) == Err::<Seq<VmView>, VmFail>(f),
                }),
            decreases specs.len() - i,
        {
            let ghost out0 = out.deep_view();
            if self.selects(&specs[i]) {
                let eff0 = if self.minimal_vm_config {
                    let e = clone_vm_spec(&specs[i]);
                    proof {
                        assert(spec_effective(*self, sv, i as int) == CascadeOutcome::Done(e@));
                    }
                    e
                } else {
                    match resolve_spec(specs, i) {
                        Ok(e) => e,
                        Err(er) => {
                            return Err(er);
                        },
                    }
                };
                let ghost eff0v = eff0@;
                let eff = match &self.vm_config {
                    Some(o) => apply_override_step(&eff0, o),
                    None => eff0,
                };
                let ghost effv = eff@;
                proof {
                    assert(spec_effective(*self, sv, i as int) == CascadeOutcome::Done(eff0v));
                    assert(effv == spec_with_override(*self, eff0v));
                }
                let img: Option<String> = match &eff.image {
                    Some(t) => match crate::template::render_one(
                        t.as_str(),
                        "name",
                        eff.name.as_str(),
                    ) {
                        Some(u) => Some(u),
                        None => {
                            proof {
                                assert(spec_selected(*self, sv[i as int]));
                                assert(effv.image is Some);
                            }
                            return Err(Error::Render(eff.name.clone()));
                        },
                    },
                    None => None,
                };
                let ssh_user: Option<String> = match &eff.ssh_user {
                    Some(t) => match crate::template::render_one(
                        t.as_str(),
                        "name",
                        eff.name.as_str(),
                    ) {
                        Some(u) => Some(u),
                        None => {
                            proof {
                                assert(spec_selected(*self, sv[i as int]));
                                assert(effv.ssh_user is Some);
                            }
                            return Err(Error::Render(eff.name.clone()));
                        },
                    },
                    None => None,
                };
                let pid: Option<u64> = match self.with_pid {
                    WithPid::Without => None,
                    _ => assoc_get_u64(pids, eff.name.as_str()),
                };
                let vm = Vm {
                    name: eff.name,
                    folded_name: eff.folded_name,
                    tags: eff.tags,
                    image: img,
                    memory: eff.memory,
                    nproc: eff.nproc,
                    ssh_user,
                    cloud_init: eff.cloud_init,
                    pid,
                };
                let ghost pvm = spec_vm_of(effv, spec_pid_for(*self, pv, effv.name));
                proof {
                    assert(vm@ =~= (VmView { image: vm@.image, ssh_user: vm@.ssh_user, ..pvm }));
                    assert(spec_rendered_from(pvm, vm@));
                }
                out.push(vm);
                proof {
                    assert(out.deep_view() =~= out0.push(vm@));
                    let pipe0 = pipe;
                    pipe = pipe.push(pvm);
                    let step = spec_resolve_all(*self, sv, pv, i as int);
                    let rest2 = spec_resolve_all(*self, sv, pv, i as int + 1);
                    match rest2 {
                        Ok(lnew) => {
                            assert(step == Ok::<Seq<VmView>, VmFail>(seq![pvm] + lnew));
                            assert(pipe + lnew =~= pipe0 + (seq![pvm] + lnew));
                            assert(spec_resolve_all(*self, sv, pv, 0) == Ok::<Seq<VmView>, VmFail>(
                                pipe + lnew,
                            ));
                        },
                        Err(f) => {
                            assert(step == Err::<Seq<VmView>, VmFail>(f));
                        },
                    }
                }
            }
            i += 1;
        }
        proof {
            assert(pipe + Seq::<VmView>::empty() =~= pipe);
        }
        let ghost actual = out.deep_view();
        proof {
            assert(spec_resolve_all(*self, sv, pv, 0) == Ok::<Seq<VmView>, VmFail>(pipe));
            assert(spec_renders_resolved(*self, sv, pv, actual));
        }
        let vms = match apply_with_pid(&self.with_pid, out) {
            Ok(v) => v,
            Err(e) => {
                return Err(e);
            },
        };
        if self.error_on_empty && vms.len() == 0 {
            proof {
                assert(vms.deep_view().len() == 0);
            }
            return Err(Error::NoMatchingVm);
        }
        Ok(vms)
    }
}

/// Copies a resolved VM; the copy has the same mathematical value.
pub fn clone_vm(v: &Vm) -> (r: Vm)
    ensures
        r@ == v@,
{
    let r = Vm {
        name: v.name.clone(),
        folded_name: v.folded_name.clone(),
        tags: clone_string_vec(&v.tags),
        image: clone_opt_string(&v.image),
        memory: v.memory,
        nproc: v.nproc,
        ssh_user: clone_opt_string(&v.ssh_user),
        cloud_init: v.cloud_init,
        pid: v.pid,
    };
    proof {
        assert(r.tags.deep_view() =~= v.tags.deep_view());
        assert(r@ =~= v@);
    }
    r
}

} // verus!
