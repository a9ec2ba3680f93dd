use vstd::prelude::*;
use vstd::string::*;

use crate::strings::{insert_sorted_string, sorted_strings, str_eq};

verus! {

/// Splits an `user@name` command-line argument at its first `@`: everything
/// before it is the user, the rest is the VM name; with no `@` the whole
/// argument is the name.
pub fn parse_user_at_name<'a>(user_at_name: &'a str) -> (r: (Option<&'a str>, &'a str))
    ensures
        match r.0 {
            Some(u) => user_at_name@ == u@ + seq!['@'] + r.1@ && !u@.contains('@'),
            None => r.1@ == user_at_name@ && !user_at_name@.contains('@'),
        },
{
    let len = user_at_name.unicode_len();
    let mut i: usize = 0;
    while i < len
        invariant
            i <= len,
            len == user_at_name@.len(),
            forall|k: int| 0 <= k < i ==> user_at_name@[k] != '@',
        decreases len - i,
    {
        if user_at_name.get_char(i) == '@' {
            let user = user_at_name.substring_char(0, i);
            let name = user_at_name.substring_char(i + 1, len);
            proof {
                assert(user@ =~= user_at_name@.subrange(0, i as int));
                assert(name@ =~= user_at_name@.subrange(i as int + 1, len as int));
                assert(user_at_name@ =~= user@ + seq!['@'] + name@);
                if user@.contains('@') {
                    let k = choose|k: int| 0 <= k < user@.len() && user@[k] == '@';
                    assert(user_at_name@[k] == '@');
                }
            }
            return (Some(user), name);
        }
        i += 1;
    }
    proof {
        if user_at_name@.contains('@') {
            let k = choose|k: int| 0 <= k < user_at_name@.len() && user_at_name@[k] == '@';
            assert(false);
        }
    }
    (None, user_at_name)
}

/// Whether a command-line token is the host-selection flag.
pub open spec fn is_host_flag(a: Seq<char>) -> bool {
    a == "--host"@ || a == "-H"@
}

/// The argument list with the first host flag and its value taken out;
/// everything after them is kept as it stands.
pub open spec fn spec_without_host(args: Seq<Seq<char>>) -> Seq<Seq<char>>
    decreases args.len(),
{
    if args.len() == 0 {
        Seq::empty()
    } else if is_host_flag(args[0]) {
        if args.len() >= 2 {
            args.skip(2)
        } else {
            Seq::empty()
        }
    } else {
        seq![args[0]] + spec_without_host(args.skip(1))
    }
}

proof fn lemma_without_host_prefix(args: Seq<Seq<char>>, i: int)
    requires
        0 <= i <= args.len(),
        forall|k: int| 0 <= k < i ==> !is_host_flag(args[k]),
    ensures
        spec_without_host(args) == args.take(i) + spec_without_host(args.skip(i)),
    decreases i,
{
    if i == 0 {
        assert(args.take(0) =~= Seq::<Seq<char>>::empty());
        assert(args.skip(0) =~= args);
        assert(args.take(0) + spec_without_host(args) =~= spec_without_host(args));
    } else {
        assert(args.len() > 0);
        assert(!is_host_flag(args[0]));
        let t = args.skip(1);
        assert forall|k: int| 0 <= k < i - 1 implies !is_host_flag(t[k]) by {
            assert(t[k] == args[k + 1]);
        }
        lemma_without_host_prefix(t, i - 1);
        assert(seq![args[0]] + t.take(i - 1) =~= args.take(i));
        assert(t.skip(i - 1) =~= args.skip(i));
        assert(seq![args[0]] + (t.take(i - 1) + spec_without_host(t.skip(i - 1))) =~= args.take(i)
            + spec_without_host(args.skip(i)));
    }
}

/// Drops the first `--host`/`-H` flag and the value after it from the
/// invocation's arguments; later occurrences are ordinary arguments.
pub fn args_without_host(args: &Vec<String>) -> (r: Vec<String>)
    ensures
        r.deep_view() == spec_without_host(args.deep_view()),
{
    let ghost av = args.deep_view();
    let mut i: usize = 0;
    let mut found = false;
    while i < args.len() && !found
        invariant
            i <= args.len(),
            av == args.deep_view(),
            forall|k: int| 0 <= k < i ==> !is_host_flag(av[k]),
            found ==> i < args.len() && is_host_flag(av[i as int]),
        decreases args.len() - i + (if found { 0int } else { 1int }),
    {
        if str_eq(args[i].as_str(), "--host") || str_eq(args[i].as_str(), "-H") {
            found = true;
        } else {
            i += 1;
        }
    }
    let mut out: Vec<String> = Vec::new();
    let mut k: usize = 0;
    while k < i
        invariant
            i <= args.len(),
            k <= i,
            av == args.deep_view(),
            out.deep_view().len() == k,
            forall|m: int| 0 <= m < k ==> out.deep_view()[m] == av[m],
        decreases i - k,
    {
        let ghost out0 = out.deep_view();
        out.push(args[k].clone());
        proof {
            assert(out.deep_view() =~= out0.push(av[k as int]));
        }
        k += 1;
    }
    proof {
        lemma_without_host_prefix(av, i as int);
    }
    if !found {
        proof {
            assert(av.skip(i as int).len() == 0);
            assert(spec_without_host(av.skip(i as int)) =~= Seq::<Seq<char>>::empty());
            assert(out.deep_view() =~= av.take(i as int) + spec_without_host(av.skip(i as int)));
        }
        return out;
    }
    // skip the flag and, when there is one, its value
    let mut m: usize = if args.len() - i >= 2 {
        i + 2
    } else {
        args.len()
    };
    while m < args.len()
        invariant
            i < args.len(),
            is_host_flag(av[i as int]),
            i + 2 <= m || (m == args.len() && args.len() <= i + 2),
            m <= args.len(),
            av == args.deep_view(),
            out.deep_view().len() == i + m - (if i + 2 <= args.len() {
                i + 2
            } else {
                args.len() as int
            }),
            forall|q: int| 0 <= q < i ==> out.deep_view()[q] == av[q],
            forall|q: int|
                i <= q < out.deep_view().len() ==> out.deep_view()[q] == av[q + 2],
        decreases args.len() - m,
    {
        let ghost out0 = out.deep_view();
        out.push(args[m].clone());
        proof {
            assert(out.deep_view() =~= out0.push(av[m as int]));
        }
        m += 1;
    }
    proof {
        let suffix = av.skip(i as int);
        assert(suffix[0] == av[i as int]);
        if suffix.len() >= 2 {
            assert(spec_without_host(suffix) == suffix.skip(2));
            assert(suffix.skip(2) =~= av.skip(i as int + 2));
            assert(out.deep_view() =~= av.take(i as int) + av.skip(i as int + 2));
        } else {
            assert(spec_without_host(suffix) =~= Seq::<Seq<char>>::empty());
            assert(out.deep_view() =~= av.take(i as int) + spec_without_host(suffix));
        }
    }
    out
}

/// What stands after the first `@`: the whole text when there is none.
pub open spec fn spec_vm_name_part(s: Seq<char>) -> Seq<char> {
    if s.contains('@') {
        spec_after_first_at(s)
    } else {
        s
    }
}

/// The text after the first `@` of a sequence that has one.
pub open spec fn spec_after_first_at(s: Seq<char>) -> Seq<char>
    decreases s.len(),
{
    if s.len() == 0 {
        s
    } else if s[0] == '@' {
        s.skip(1)
    } else {
        spec_after_first_at(s.skip(1))
    }
}

proof fn lemma_after_first_at(u: Seq<char>, t: Seq<char>)
    requires
        !u.contains('@'),
    ensures
        spec_after_first_at(u + seq!['@'] + t) == t,
    decreases u.len(),
{
    let s = u + seq!['@'] + t;
    if u.len() == 0 {
        assert(s[0] == '@');
        assert(s.skip(1) =~= t);
    } else {
        assert(s[0] == u[0]);
        if u[0] == '@' {
            assert(u.contains('@'));
        }
        let u1 = u.skip(1);
        assert forall|k: int| 0 <= k < u1.len() implies u1[k] != '@' by {
            assert(u1[k] == u[k + 1]);
        }
        if u1.contains('@') {
            let k = choose|k: int| 0 <= k < u1.len() && u1[k] == '@';
            assert(false);
        }
        lemma_after_first_at(u1, t);
        assert(s.skip(1) =~= u1 + seq!['@'] + t);
    }
}

/// The selection flags a subcommand passes on, as plain values: the
/// positional `user@name` argument, further explicit names, the parent and
/// tag filters, and whether only running VMs were asked for.
pub struct SelectionArgs {
    pub name: Option<String>,
    pub names: Vec<String>,
    pub parents: Vec<String>,
    pub tags: Vec<String>,
    pub running: bool,
}

/// Feeds a subcommand's selection flags into the criteria: the positional
/// argument's name part and the explicit names narrow the set, parent and
/// tag filters are added, and asking for running VMs switches the liveness
/// mode to `Filter`.
pub fn set_specifications(vmc: &mut crate::vms::VmsCreator, args: &SelectionArgs)
    ensures
        final(vmc).names.deep_view() == old(vmc).names.deep_view() + (match args.name {
            Some(n) => seq![spec_vm_name_part(n@)],
            None => Seq::<Seq<char>>::empty(),
        }) + args.names.deep_view(),
        final(vmc).parents.deep_view() == old(vmc).parents.deep_view() + args.parents.deep_view(),
        final(vmc).tags.deep_view() == old(vmc).tags.deep_view() + args.tags.deep_view(),
        final(vmc).with_pid == (if args.running {
            crate::vms::WithPid::Filter
        } else {
            old(vmc).with_pid
        }),
        final(vmc).all == old(vmc).all,
        final(vmc).error_on_empty == old(vmc).error_on_empty,
        final(vmc).minimal_vm_config == old(vmc).minimal_vm_config,
        final(vmc).vm_config == old(vmc).vm_config,
{
    let ghost n0 = vmc.names.deep_view();
    match &args.name {
        Some(n) => {
            let (user, vm_name) = parse_user_at_name(n.as_str());
            proof {
                match user {
                    Some(us) => {
                        lemma_after_first_at(us@, vm_name@);
                        assert(n@.contains('@')) by {
                            assert(n@[us@.len() as int] == '@');
                        }
                        assert(vm_name@ == spec_vm_name_part(n@));
                    },
                    None => {
                        assert(vm_name@ == spec_vm_name_part(n@));
                    },
                }
            }
            vmc.name(vm_name);
            proof {
                assert(vmc.names.deep_view() =~= n0 + seq![spec_vm_name_part(n@)]);
            }
        },
        None => {
            proof {
                assert(vmc.names.deep_view() =~= n0 + Seq::<Seq<char>>::empty());
            }
        },
    }
    vmc.names(&args.names);
    vmc.parents(&args.parents);
    vmc.tags(&args.tags);
    if args.running {
        vmc.with_pid(crate::vms::WithPid::Filter);
    }
}

/// Whether the listing folds VM names back to their declared patterns: the
/// configuration's default, overridden by the `fold`/`unfold` flags.
pub fn effective_fold(config_fold: bool, fold: bool, unfold: bool) -> (r: bool)
    ensures
        r == (if config_fold {
            fold || !unfold
        } else {
            fold && !unfold
        }),
{
    if config_fold {
        fold || !unfold
    } else {
        fold && !unfold
    }
}

/// The sorted, duplicate-free names a listing prints: each VM's folded
/// pattern name when folding, its concrete name otherwise.
pub fn list_names(vms: &Vec<(String, String)>, fold: bool) -> (r: Vec<String>)
    ensures
        sorted_strings(r.deep_view()),
        forall|x: Seq<char>|
            r.deep_view().contains(x) <==> exists|k: int|
                0 <= k < vms.deep_view().len() && x == (if fold {
                    (#[trigger] vms.deep_view()[k]).1
                } else {
                    vms.deep_view()[k].0
                }),
{
    let ghost vv = vms.deep_view();
    let mut out: Vec<String> = Vec::new();
    let mut i: usize = 0;
    while i < vms.len()
        invariant
            i <= vms.len(),
            vv == vms.deep_view(),
            sorted_strings(out.deep_view()),
            forall|x: Seq<char>|
                out.deep_view().contains(x) <==> exists|k: int|
                    0 <= k < i && x == (if fold {
                        (#[trigger] vv[k]).1
                    } else {
                        vv[k].0
                    }),
        decreases vms.len() - i,
    {
        let picked = if fold {
            vms[i].1.clone()
        } else {
            vms[i].0.clone()
        };
        proof {
            assert(picked@ == (if fold {
                vv[i as int].1
            } else {
                vv[i as int].0
            }));
        }
        insert_sorted_string(&mut out, picked);
        proof {
            assert forall|x: Seq<char>| out.deep_view().contains(x) <==> exists|k: int|
                0 <= k < i + 1 && x == (if fold {
                    (#[trigger] vv[k]).1
                } else {
                    vv[k].0
                }) by {
                if out.deep_view().contains(x) && x != picked@ {
                    let k = choose|k: int|
                        0 <= k < i && x == (if fold {
                            (#[trigger] vv[k]).1
                        } else {
                            vv[k].0
                        });
                }
            }
        }
        i += 1;
    }
    out
}

/// Whether a start boots with cloud-init: the configuration's default unless
/// suppressed, or demanded outright.
pub fn cloud_init_enabled(config_cloud_init: bool, no_flag: bool, yes_flag: bool) -> (r: bool)
    ensures
        r == (config_cloud_init && !no_flag || yes_flag),
{
    config_cloud_init && !no_flag || yes_flag
}

/// What `create` does to a VM whose disk already exists.
#[derive(Clone, Copy, Debug, PartialEq, Eq, Structural)]
pub enum CreateExistsAction {
    Fail,
    Ignore,
    Replace,
}

/// The action on an existing VM: the first explicit flag wins, the
/// configuration's default stands otherwise.
pub fn create_exists_action(
    fail: bool,
    ignore: bool,
    replace: bool,
    config_default: CreateExistsAction,
) -> (r: CreateExistsAction)
    ensures
        fail ==> r == CreateExistsAction::Fail,
        !fail && ignore ==> r == CreateExistsAction::Ignore,
        !fail && !ignore && replace ==> r == CreateExistsAction::Replace,
        !fail && !ignore && !replace ==> r == config_default,
{
    if fail {
        CreateExistsAction::Fail
    } else if ignore {
        CreateExistsAction::Ignore
    } else if replace {
        CreateExistsAction::Replace
    } else {
        config_default
    }
}

/// Whether a character is whitespace trimmed from the end of a console
/// answer: the Unicode White_Space set, as `str::trim_end` trims.
pub open spec fn is_answer_ws(c: char) -> bool {
    let u = c as u32;
    (0x09 <= u && u <= 0x0D) || u == 0x20 || u == 0x85 || u == 0xA0 || u == 0x1680 || (0x2000 <= u
        && u <= 0x200A) || u == 0x2028 || u == 0x2029 || u == 0x202F || u == 0x205F || u == 0x3000
}

/// Decides [`is_answer_ws`].
fn answer_ws(c: char) -> (r: bool)
    ensures
        r == is_answer_ws(c),
{
    let u = c as u32;
    (0x09 <= u && u <= 0x0D) || u == 0x20 || u == 0x85 || u == 0xA0 || u == 0x1680 || (0x2000 <= u
        && u <= 0x200A) || u == 0x2028 || u == 0x2029 || u == 0x202F || u == 0x205F || u == 0x3000
}

/// A console answer with its trailing whitespace removed.
pub open spec fn spec_trim_end(s: Seq<char>) -> Seq<char>
    decreases s.len(),
{
    if s.len() == 0 {
        s
    } else if is_answer_ws(s.last()) {
        spec_trim_end(s.drop_last())
    } else {
        s
    }
}

/// Whether a trimmed answer is an affirmative `y` or `yes`, in any case.
pub open spec fn spec_affirmative(s: Seq<char>) -> bool {
    let t = spec_trim_end(s);
    (t.len() == 1 && (t[0] == 'y' || t[0] == 'Y')) || (t.len() == 3 && (t[0] == 'y' || t[0] == 'Y')
        && (t[1] == 'e' || t[1] == 'E') && (t[2] == 's' || t[2] == 'S'))
}

/// Decides whether a console answer says yes: `y` or `yes`, in any letter
/// case, trailing whitespace ignored.
pub fn is_affirmative(answer: &str) -> (r: bool)
    ensures
        r == spec_affirmative(answer@),
{
    let len = answer.unicode_len();
    let mut end: usize = len;
    let mut stop = false;
    proof {
        assert(answer@.take(len as int) =~= answer@);
    }
    while end > 0 && !stop
        invariant
            end <= len,
            len == answer@.len(),
            spec_trim_end(answer@) == spec_trim_end(answer@.take(end as int)),
            stop ==> spec_trim_end(answer@.take(end as int)) == answer@.take(end as int),
        decreases end + (if stop {
            0int
        } else {
            1int
        }),
    {
        let c = answer.get_char(end - 1);
        proof {
            let t = answer@.take(end as int);
            assert(t.last() == answer@[end as int - 1]);
        }
        if answer_ws(c) {
            proof {
                let t = answer@.take(end as int);
                assert(is_answer_ws(t.last()));
                assert(spec_trim_end(t) == spec_trim_end(t.drop_last()));
                assert(t.drop_last() =~= answer@.take(end as int - 1));
            }
            end = end - 1;
        } else {
            proof {
                let t = answer@.take(end as int);
                assert(!is_answer_ws(t.last()));
                assert(spec_trim_end(t) == t);
            }
            stop = true;
        }
    }
    proof {
        if !stop {
            assert(end == 0);
            assert(answer@.take(0).len() == 0);
        }
        assert(spec_trim_end(answer@) == answer@.take(end as int));
    }
    if end == 1 {
        let c0 = answer.get_char(0);
        proof {
            assert(answer@.take(1)[0] == answer@[0]);
        }
        c0 == 'y' || c0 == 'Y'
    } else if end == 3 {
        let c0 = answer.get_char(0);
        let c1 = answer.get_char(1);
        let c2 = answer.get_char(2);
        proof {
            assert(answer@.take(3)[0] == answer@[0]);
            assert(answer@.take(3)[1] == answer@[1]);
            assert(answer@.take(3)[2] == answer@[2]);
        }
        (c0 == 'y' || c0 == 'Y') && (c1 == 'e' || c1 == 'E') && (c2 == 's' || c2 == 'S')
    } else {
        false
    }
}

/// Whether the wait-for-SSH retry loop is done with a VM: the probe
/// succeeded, or no attempts remain.
pub fn ssh_wait_done(status: Option<i64>, attempts_left: u64) -> (r: bool)
    ensures
        r == (status == Some(0i64) || attempts_left == 0),
{
    match status {
        Some(c) => c == 0 || attempts_left == 0,
        None => attempts_left == 0,
    }
}

} // verus!
