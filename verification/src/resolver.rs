//! Process resolver: given what the live process table reports for a
//! process id — its name and launch arguments — produce the canonical
//! display name.  The reported name is cleaned; when the cleaned name
//! is exactly one of the fixed interpreter/runtime host names, the
//! second launch argument is inspected to recover the hosted script's
//! file name.  A process id absent from the table falls back to the
//! cleaned owner-name hint of the listener record.

use vstd::prelude::*;
use vstd::string::StrSliceExecFns;
use vstd::string::StringExecFns;
use crate::name_clean::{clean, clean_process_name};
use crate::text::{str_chars, string_from_range};

verus! {

/// What the process table reports for one process: its name and its
/// launch argument vector.
pub struct ProcessEntry {
    pub name: String,
    pub args: Vec<String>,
}

/// Mathematical model of a process-table entry.
pub struct EntryModel {
    pub name: Seq<char>,
    pub args: Seq<Seq<char>>,
}

impl View for ProcessEntry {
    type V = EntryModel;

    open spec fn view(&self) -> EntryModel {
        EntryModel {
            name: self.name@,
            args: Seq::new(self.args@.len(), |i: int| self.args@[i]@),
        }
    }
}

pub open spec fn opt_entry_view(entry: Option<&ProcessEntry>) -> Option<EntryModel> {
    match entry {
        Option::Some(e) => Some(e@),
        Option::None => None,
    }
}

/// The fixed, case-sensitive set of interpreter/runtime host names
/// whose reported process name is uninformative: the JS runtime, the
/// Electron host, and the two casings of the Python interpreter.
pub open spec fn is_interpreter_host(name: Seq<char>) -> bool {
    name == "node"@ || name == "electron"@ || name == "python"@ || name == "Python"@
}

/// `s` without its trailing run of `/` separators.
pub open spec fn strip_trailing_slashes(s: Seq<char>) -> Seq<char>
    decreases s.len(),
{
    if s.len() > 0 && s.last() == '/' {
        strip_trailing_slashes(s.drop_last())
    } else {
        s
    }
}

/// The characters after the last `/` of `s` (all of `s` when it has
/// none).
pub open spec fn after_last_slash(s: Seq<char>) -> Seq<char>
    decreases s.len(),
{
    if s.len() == 0 {
        Seq::empty()
    } else if s.last() == '/' {
        Seq::empty()
    } else {
        after_last_slash(s.drop_last()) + seq![s.last()]
    }
}

/// The final path component of `path`, if it has one: trailing
/// separators are ignored, and a path that ends in a bare `.` or `..`
/// component, or consists only of separators, has none.
pub open spec fn basename(path: Seq<char>) -> Option<Seq<char>> {
    let b = after_last_slash(strip_trailing_slashes(path));
    if b.len() == 0 || b == "."@ || b == ".."@ {
        None
    } else {
        Some(b)
    }
}

/// The display name derived from the table-reported process name and
/// second launch argument, when the table has them.  With a reported
/// name, the cleaned name; when that cleaned name is exactly an
/// interpreter host name and the second launch argument is present, is
/// no `-` flag, and has a final path component, that component
/// overrides it.  Without a reported name, the cleaned owner-name
/// hint.
pub open spec fn display_from_parts(
    name: Option<Seq<char>>,
    arg: Option<Seq<char>>,
    hint: Seq<char>,
) -> Seq<char> {
    match name {
        Option::Some(n) => {
            let base = clean(n);
            if is_interpreter_host(base) {
                match arg {
                    Option::Some(a) => if !(a.len() > 0 && a[0] == '-') {
                        match basename(a) {
                            Option::Some(b) => b,
                            Option::None => base,
                        }
                    } else {
                        base
                    },
                    Option::None => base,
                }
            } else {
                base
            }
        },
        Option::None => clean(hint),
    }
}

/// The display name for one listener record, from its process-table
/// entry: the entry's name and its second launch argument (when its
/// argument vector has one) decide, as `display_from_parts` says.
pub open spec fn display_name_spec(entry: Option<EntryModel>, hint: Seq<char>) -> Seq<char> {
    match entry {
        Option::Some(e) => display_from_parts(
            Some(e.name),
            if e.args.len() >= 2 {
                Some(e.args[1])
            } else {
                None
            },
            hint,
        ),
        Option::None => display_from_parts(None, None, hint),
    }
}

/// The interpreter-host override never fires for a name outside the
/// fixed host-name set: the cleaned reported name is then the display
/// name, whatever the launch arguments hold.
pub proof fn lemma_override_needs_exact_host(e: EntryModel, hint: Seq<char>)
    requires
        !is_interpreter_host(clean(e.name)),
    ensures
        display_name_spec(Some(e), hint) == clean(e.name),
{
}

/// The final path component of `path`, if it has one.
pub fn path_file_name(path: &str) -> (r: Option<String>)
    ensures
        match r {
            Option::Some(b) => basename(path@) == Some(b@),
            Option::None => basename(path@) is None,
        },
{
    let v = str_chars(path);
    let n = v.len();
    // Ignore trailing separators.
    let mut e: usize = n;
    while e > 0 && v[e - 1] == '/'
        invariant
            e <= n == v@.len(),
            forall|j: int| e <= j < n ==> v@[j] == '/',
        decreases e,
    {
        e = e - 1;
    }
    proof {
        lemma_strip_trailing_at(v@, e as int);
    }
    let ghost t = v@.take(e as int);
    // Find the start of the last component.
    let mut k: usize = e;
    while k > 0 && v[k - 1] != '/'
        invariant
            k <= e,
            e <= v@.len(),
            forall|j: int| k <= j < e ==> v@[j] != '/',
        decreases k,
    {
        k = k - 1;
    }
    proof {
        lemma_after_last_slash_at(t, k as int);
        assert(t.skip(k as int) =~= v@.subrange(k as int, e as int));
    }
    if k == e {
        return None;
    }
    let len = e - k;
    if len == 1 && v[k] == '.' {
        proof {
            reveal_strlit(".");
            assert(v@.subrange(k as int, e as int) =~= "."@);
        }
        return None;
    }
    if len == 2 && v[k] == '.' && v[k + 1] == '.' {
        proof {
            reveal_strlit("..");
            assert(v@.subrange(k as int, e as int) =~= ".."@);
        }
        return None;
    }
    proof {
        reveal_strlit(".");
        reveal_strlit("..");
        let b = v@.subrange(k as int, e as int);
        assert(b != "."@ && b != ".."@) by {
            if b == "."@ {
                assert(b.len() == 1 && b[0] == '.');
            }
            if b == ".."@ {
                assert(b.len() == 2 && b[0] == '.' && b[1] == '.');
            }
        }
    }
    Some(string_from_range(&v, k, e))
}

proof fn lemma_strip_trailing_at(s: Seq<char>, e: int)
    requires
        0 <= e <= s.len(),
        forall|j: int| e <= j < s.len() ==> s[j] == '/',
        e == 0 || s[e - 1] != '/',
    ensures
        strip_trailing_slashes(s) == s.take(e),
    decreases s.len() - e,
{
    if e == s.len() {
        assert(s.take(e) =~= s);
    } else {
        lemma_strip_trailing_at(s.drop_last(), e);
        assert(s.drop_last().take(e) =~= s.take(e));
    }
}

proof fn lemma_after_last_slash_at(s: Seq<char>, k: int)
    requires
        0 <= k <= s.len(),
        forall|j: int| k <= j < s.len() ==> s[j] != '/',
        k == 0 || s[k - 1] == '/',
    ensures
        after_last_slash(s) == s.skip(k),
    decreases s.len(),
{
    if k == s.len() {
        if k == 0 {
            assert(s.skip(0) =~= s);
        } else {
            assert(s.last() == '/');
            assert(s.skip(k) =~= Seq::<char>::empty());
        }
    } else {
        if s.len() == 0 {
            assert(s.skip(0) =~= s);
        } else {
            assert(s.last() != '/');
            lemma_after_last_slash_at(s.drop_last(), k);
            assert(s.drop_last().skip(k) + seq![s.last()] =~= s.skip(k));
        }
    }
}

/// Whether the cleaned name is exactly one of the interpreter host
/// names.
fn is_host_name(name: &String) -> (b: bool)
    ensures
        b == is_interpreter_host(name@),
{
    let node = String::from_str("node");
    let electron = String::from_str("electron");
    let python = String::from_str("python");
    let python_cap = String::from_str("Python");
    *name == node || *name == electron || *name == python || *name == python_cap
}

pub open spec fn opt_string_view(s: Option<&String>) -> Option<Seq<char>> {
    match s {
        Option::Some(x) => Some(x@),
        Option::None => None,
    }
}

/// Resolve the display name from the table-reported name and second
/// launch argument, falling back to the record's owner-name hint when
/// the table reported nothing.
pub fn resolve_from_parts(name: Option<&String>, arg: Option<&String>, hint: &str) -> (r: String)
    ensures
        r@ == display_from_parts(opt_string_view(name), opt_string_view(arg), hint@),
{
    match name {
        Option::Some(n) => {
            let base = clean_process_name(n.as_str());
            if is_host_name(&base) {
                match arg {
                    Option::Some(a) => {
                        let flagged = a.as_str().unicode_len() > 0 && a.as_str().get_char(0)
                            == '-';
                        if !flagged {
                            match path_file_name(a.as_str()) {
                                Option::Some(b) => b,
                                Option::None => base,
                            }
                        } else {
                            base
                        }
                    },
                    Option::None => base,
                }
            } else {
                base
            }
        },
        Option::None => clean_process_name(hint),
    }
}

/// Resolve the display name for one listener record from what the
/// process table reports, falling back to the record's owner-name
/// hint when the table has no entry for the process id.
pub fn resolve_display_name(entry: Option<&ProcessEntry>, hint: &str) -> (r: String)
    ensures
        r@ == display_name_spec(opt_entry_view(entry), hint@),
{
    match entry {
        Option::Some(e) => {
            proof {
                if e@.args.len() >= 2 {
                    assert(e@.args[1] == e.args@[1]@);
                }
            }
            if e.args.len() >= 2 {
                resolve_from_parts(Some(&e.name), Some(&e.args[1]), hint)
            } else {
                resolve_from_parts(Some(&e.name), None, hint)
            }
        },
        Option::None => resolve_from_parts(None, None, hint),
    }
}

} // verus!
