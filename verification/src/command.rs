//! The command builder: it accumulates the program name, positional
//! arguments, environment dispositions and an optional working directory.
//! All correctness-sensitive work is deferred to the serializer; the builder
//! only keeps its state well formed, with environment entries held in the
//! canonical key order.

use vstd::prelude::*;
use vstd::string::StringExecFns;
use crate::env::{
    assign_all, entry_keys, env_map, lemma_env_map_insert_at, lemma_env_map_update_at,
    lemma_sorted_unique, sorted_keys, Disposition, DispositionView, EnvEntry,
};
use crate::lex::{
    lemma_lex_lt_asymmetric, lemma_lex_lt_ne, lemma_lex_lt_trans, lex_lt, str_compare, KeyOrder,
};
use crate::digits::{dec_rep, u16_decimal};
use crate::escape::{escape_string, escaped};
use crate::serialize::{
    cd_tokens, env_token, env_tokens, lemma_env_tokens_concat, spec_remote_tokens,
    spec_transport_argv,
};

verus! {

/// The state gathered before a target host is bound.
pub struct PreCommand {
    program: String,
    port: u16,
}

pub struct PreCommandView {
    pub program: Seq<char>,
    pub port: u16,
}

impl View for PreCommand {
    type V = PreCommandView;

    closed spec fn view(&self) -> PreCommandView {
        PreCommandView { program: self.program@, port: self.port }
    }
}

/// A command bound to a target host, ready to be serialized and executed.
pub struct Command {
    program: String,
    host: String,
    port: u16,
    cwd: Option<String>,
    args: Vec<String>,
    envs: Vec<EnvEntry>,
}

#[verifier::ext_equal]
pub struct CommandView {
    pub program: Seq<char>,
    pub host: Seq<char>,
    pub port: u16,
    pub cwd: Option<Seq<char>>,
    pub args: Seq<Seq<char>>,
    pub envs: Seq<(Seq<char>, DispositionView)>,
}

impl View for Command {
    type V = CommandView;

    closed spec fn view(&self) -> CommandView {
        CommandView {
            program: self.program@,
            host: self.host@,
            port: self.port,
            cwd: self.cwd.deep_view(),
            args: self.args.deep_view(),
            envs: self.envs.deep_view(),
        }
    }
}

impl CommandView {
    /// The builder's invariant: a program to run, and environment entries
    /// strictly ascending by key.
    pub open spec fn wf(self) -> bool {
        self.program.len() > 0 && sorted_keys(self.envs)
    }
}

impl PreCommand {
    /// Override the port the transport connects to.
    pub fn port(self, port: u16) -> (r: PreCommand)
        ensures
            r@.program == self@.program,
            r@.port == port,
    {
        PreCommand { program: self.program, port }
    }

    /// Bind the target host, making the command executable. No network
    /// action occurs here.
    pub fn host(self, host: &str) -> (r: Command)
        requires
            self@.program.len() > 0,
        ensures
            r@.wf(),
            r@.program == self@.program,
            r@.port == self@.port,
            r@.host == host@,
            r@.cwd is None,
            r@.args == Seq::<Seq<char>>::empty(),
            r@.envs == Seq::<(Seq<char>, DispositionView)>::empty(),
    {
        let c = Command {
            program: self.program,
            host: String::from_str(host),
            port: self.port,
            cwd: None,
            args: Vec::new(),
            envs: Vec::new(),
        };
        proof {
            assert(c@.args =~= Seq::<Seq<char>>::empty());
            assert(c@.envs =~= Seq::<(Seq<char>, DispositionView)>::empty());
        }
        c
    }
}

impl Command {
    /// Start configuring a command that will run `program` on the remote
    /// end, with the default port of 22. The program name is held verbatim:
    /// it is never escaped at serialization time, a documented trust
    /// boundary.
    pub fn new(program: &str) -> (r: PreCommand)
        requires
            program@.len() > 0,
        ensures
            r@.program == program@,
            r@.port == 22,
    {
        PreCommand { program: String::from_str(program), port: 22 }
    }

    /// Append one positional argument; order is significant and preserved.
    pub fn arg(&mut self, value: &str)
        requires
            old(self)@.wf(),
        ensures
            final(self)@.wf(),
            final(self)@ == (CommandView { args: old(self)@.args.push(value@), ..old(self)@ }),
    {
        self.args.push(String::from_str(value));
        proof {
            assert(self@.args =~= old(self)@.args.push(value@));
            assert(self@ =~= (CommandView { args: old(self)@.args.push(value@), ..old(self)@ }));
        }
    }

    /// Append many positional arguments, in call order.
    pub fn args(&mut self, list: &Vec<String>)
        requires
            old(self)@.wf(),
        ensures
            final(self)@.wf(),
            final(self)@ == (CommandView {
                args: old(self)@.args + list.deep_view(),
                ..old(self)@
            }),
    {
        let n = list.len();
        let mut i: usize = 0;
        while i < n
            invariant
                i <= n,
                n == list.deep_view().len(),
                self@.wf(),
                self@ == (CommandView {
                    args: old(self)@.args + list.deep_view().take(i as int),
                    ..old(self)@
                }),
            decreases n - i,
        {
            self.arg(list[i].as_str());
            proof {
                assert(list.deep_view().take(i + 1) =~= list.deep_view().take(i as int).push(
                    list.deep_view()[i as int],
                ));
                assert(old(self)@.args + list.deep_view().take(i + 1) =~= (old(self)@.args
                    + list.deep_view().take(i as int)).push(list.deep_view()[i as int]));
            }
            i += 1;
        }
        proof {
            assert(list.deep_view().take(n as int) =~= list.deep_view());
            assert(self@ =~= (CommandView {
                args: old(self)@.args + list.deep_view(),
                ..old(self)@
            }));
        }
    }

    /// Record that `key` is to hold `value` on the remote side,
    /// overwriting any earlier disposition for the key.
    pub fn env(&mut self, key: &str, value: &str)
        requires
            old(self)@.wf(),
        ensures
            final(self)@.wf(),
            env_map(final(self)@.envs) == env_map(old(self)@.envs).insert(
                key@,
                DispositionView::Assign(value@),
            ),
            final(self)@.program == old(self)@.program,
            final(self)@.host == old(self)@.host,
            final(self)@.port == old(self)@.port,
            final(self)@.cwd == old(self)@.cwd,
            final(self)@.args == old(self)@.args,
    {
        self.set_disposition(key, Disposition::Assign(String::from_str(value)));
    }

    /// Record many set-to-value dispositions, in call order: a later pair
    /// for the same key overwrites an earlier one.
    pub fn envs(&mut self, vars: &Vec<(String, String)>)
        requires
            old(self)@.wf(),
        ensures
            final(self)@.wf(),
            env_map(final(self)@.envs) == assign_all(
                env_map(old(self)@.envs),
                vars.deep_view(),
            ),
            final(self)@.program == old(self)@.program,
            final(self)@.host == old(self)@.host,
            final(self)@.port == old(self)@.port,
            final(self)@.cwd == old(self)@.cwd,
            final(self)@.args == old(self)@.args,
    {
        let ghost pairs = vars.deep_view();
        proof {
            assert(pairs.skip(0) =~= pairs);
        }
        let n = vars.len();
        let mut i: usize = 0;
        while i < n
            invariant
                i <= n,
                n == pairs.len(),
                pairs == vars.deep_view(),
                self@.wf(),
                assign_all(env_map(self@.envs), pairs.skip(i as int)) == assign_all(
                    env_map(old(self)@.envs),
                    pairs,
                ),
                self@.program == old(self)@.program,
                self@.host == old(self)@.host,
                self@.port == old(self)@.port,
                self@.cwd == old(self)@.cwd,
                self@.args == old(self)@.args,
            decreases n - i,
        {
            let ghost before = env_map(self@.envs);
            let pair = &vars[i];
            self.env(pair.0.as_str(), pair.1.as_str());
            proof {
                assert(pairs.skip(i as int)[0] == pairs[i as int]);
                assert(pairs.skip(i as int).skip(1) =~= pairs.skip(i + 1));
                assert(assign_all(before, pairs.skip(i as int)) == assign_all(
                    before.insert(pairs[i as int].0, DispositionView::Assign(pairs[i as int].1)),
                    pairs.skip(i + 1),
                ));
            }
            i += 1;
        }
        proof {
            assert(pairs.skip(n as int) =~= Seq::<(Seq<char>, Seq<char>)>::empty());
        }
    }

    /// Record that `key` is to be explicitly cleared on the remote side —
    /// distinct from never having been mentioned, because the remote shell
    /// inherits ambient environment from its own login session. The
    /// serializer does not yet emit an `unset` clause for such a key: the
    /// disposition is recorded, and no assignment token is emitted, but an
    /// inherited remote variable is not suppressed.
    pub fn env_remove(&mut self, key: &str)
        requires
            old(self)@.wf(),
        ensures
            final(self)@.wf(),
            env_map(final(self)@.envs) == env_map(old(self)@.envs).insert(
                key@,
                DispositionView::Unset,
            ),
            final(self)@.program == old(self)@.program,
            final(self)@.host == old(self)@.host,
            final(self)@.port == old(self)@.port,
            final(self)@.cwd == old(self)@.cwd,
            final(self)@.args == old(self)@.args,
    {
        self.set_disposition(key, Disposition::Unset);
    }

    /// Discard every recorded environment disposition.
    pub fn env_clear(&mut self)
        requires
            old(self)@.wf(),
        ensures
            final(self)@.wf(),
            final(self)@ == (CommandView {
                envs: Seq::<(Seq<char>, DispositionView)>::empty(),
                ..old(self)@
            }),
    {
        self.envs.clear();
        proof {
            assert(self@.envs =~= Seq::<(Seq<char>, DispositionView)>::empty());
            assert(self@ =~= (CommandView {
                envs: Seq::<(Seq<char>, DispositionView)>::empty(),
                ..old(self)@
            }));
        }
    }

    /// Record the directory to change into before the program runs on the
    /// remote side.
    pub fn current_dir(&mut self, dir: &str)
        requires
            old(self)@.wf(),
        ensures
            final(self)@.wf(),
            final(self)@ == (CommandView { cwd: Some(dir@), ..old(self)@ }),
    {
        self.cwd = Some(String::from_str(dir));
        proof {
            assert(self@ =~= (CommandView { cwd: Some(dir@), ..old(self)@ }));
        }
    }

    /// Flatten the builder state into the remote command tokens: the
    /// directory clause, the environment assignments in canonical key
    /// order, the program name verbatim, then each argument escaped.
    pub fn remote_tokens(&self) -> (r: Vec<String>)
        requires
            self@.wf(),
        ensures
            r.deep_view() == spec_remote_tokens(self@),
    {
        let mut r: Vec<String> = Vec::new();
        match &self.cwd {
            Some(d) => {
                r.push(String::from_str("cd"));
                r.push(escape_string(d.as_str()));
                r.push(String::from_str("&&"));
            }
            None => {},
        }
        proof {
            assert(r.deep_view() =~= cd_tokens(self@.cwd));
        }
        let ghost evs = self@.envs;
        let n = self.envs.len();
        let mut i: usize = 0;
        while i < n
            invariant
                i <= n,
                n == self.envs.len(),
                evs == self@.envs,
                r.deep_view() == cd_tokens(self@.cwd) + env_tokens(evs.take(i as int)),
            decreases n - i,
        {
            let ghost prev = r.deep_view();
            match &self.envs[i].disposition {
                Disposition::Assign(v) => {
                    let mut t = self.envs[i].key.clone();
                    t.append("=");
                    let e = escape_string(v.as_str());
                    t.append(e.as_str());
                    proof {
                        reveal_strlit("=");
                        assert("="@ =~= seq!['=']);
                        assert(t@ =~= env_token(evs[i as int].0, v@));
                    }
                    r.push(t);
                    proof {
                        assert(r.deep_view() =~= prev.push(env_token(evs[i as int].0, v@)));
                    }
                }
                Disposition::Unset => {},
            }
            proof {
                assert(evs.take(i + 1) =~= evs.take(i as int) + seq![evs[i as int]]);
                lemma_env_tokens_concat(evs.take(i as int), seq![evs[i as int]]);
                assert(seq![evs[i as int]].skip(1) =~= Seq::<
                    (Seq<char>, DispositionView),
                >::empty());
                assert(env_tokens(Seq::<(Seq<char>, DispositionView)>::empty()) =~= Seq::<
                    Seq<char>,
                >::empty());
                assert(env_tokens(seq![evs[i as int]]) == (match evs[i as int].1 {
                    DispositionView::Assign(v) => seq![env_token(evs[i as int].0, v)],
                    DispositionView::Unset => Seq::<Seq<char>>::empty(),
                }) + env_tokens(seq![evs[i as int]].skip(1)));
                match evs[i as int].1 {
                    DispositionView::Assign(v) => {
                        assert(env_tokens(seq![evs[i as int]]) =~= seq![
                            env_token(evs[i as int].0, v),
                        ]);
                        assert(r.deep_view() =~= cd_tokens(self@.cwd) + env_tokens(
                            evs.take(i + 1),
                        ));
                    }
                    DispositionView::Unset => {
                        assert(env_tokens(seq![evs[i as int]]) =~= Seq::<Seq<char>>::empty());
                        assert(r.deep_view() =~= cd_tokens(self@.cwd) + env_tokens(
                            evs.take(i + 1),
                        ));
                    }
                }
            }
            i += 1;
        }
        proof {
            assert(evs.take(n as int) =~= evs);
        }
        let ghost before_program = r.deep_view();
        r.push(self.program.clone());
        proof {
            assert(r.deep_view() =~= before_program.push(self@.program));
            assert(r.deep_view() =~= cd_tokens(self@.cwd) + env_tokens(evs) + seq![self@.program]);
        }
        let ghost mid = r.deep_view();
        let m = self.args.len();
        let mut j: usize = 0;
        while j < m
            invariant
                j <= m,
                m == self.args.len(),
                mid == cd_tokens(self@.cwd) + env_tokens(self@.envs) + seq![self@.program],
                r.deep_view() == mid + self@.args.take(j as int).map_values(
                    |a: Seq<char>| escaped(a),
                ),
            decreases m - j,
        {
            let ghost prev = r.deep_view();
            let e = escape_string(self.args[j].as_str());
            r.push(e);
            proof {
                assert(r.deep_view() =~= prev.push(escaped(self@.args[j as int])));
                assert(self@.args.take(j + 1).map_values(|a: Seq<char>| escaped(a)) =~= self@
                    .args.take(j as int).map_values(|a: Seq<char>| escaped(a)).push(
                    escaped(self@.args[j as int]),
                ));
                assert(r.deep_view() =~= mid + self@.args.take(j + 1).map_values(
                    |a: Seq<char>| escaped(a),
                ));
            }
            j += 1;
        }
        proof {
            assert(self@.args.take(m as int) =~= self@.args);
            assert(r.deep_view() =~= spec_remote_tokens(self@));
        }
        r
    }

    /// Produce the whole argument vector for the transport invocation:
    /// the port flag when the port is not the default 22, the target host,
    /// a `--` separator, then the remote command tokens.
    pub fn transport_argv(&self) -> (r: Vec<String>)
        requires
            self@.wf(),
        ensures
            r.deep_view() == spec_transport_argv(self@),
    {
        let mut r: Vec<String> = Vec::new();
        if self.port != 22 {
            r.push(String::from_str("-p"));
            r.push(u16_decimal(self.port));
        }
        r.push(self.host.clone());
        r.push(String::from_str("--"));
        let ghost front = r.deep_view();
        proof {
            if self@.port != 22 {
                assert(front =~= seq!["-p"@, dec_rep(self@.port as nat)] + seq![
                    self@.host,
                    "--"@,
                ]);
            } else {
                assert(front =~= Seq::<Seq<char>>::empty() + seq![self@.host, "--"@]);
            }
        }
        let mut rest = self.remote_tokens();
        r.append(&mut rest);
        proof {
            assert(r.deep_view() =~= front + spec_remote_tokens(self@));
            assert(r.deep_view() =~= spec_transport_argv(self@));
        }
        r
    }

    /// Set one key's disposition, keeping the entries strictly sorted by
    /// key so that serialization order is canonical.
    fn set_disposition(&mut self, key: &str, disposition: Disposition)
        requires
            old(self)@.wf(),
        ensures
            final(self)@.wf(),
            env_map(final(self)@.envs) == env_map(old(self)@.envs).insert(key@, disposition@),
            final(self)@.program == old(self)@.program,
            final(self)@.host == old(self)@.host,
            final(self)@.port == old(self)@.port,
            final(self)@.cwd == old(self)@.cwd,
            final(self)@.args == old(self)@.args,
    {
        let ghost evs = self@.envs;
        let ghost d = disposition@;
        proof {
            lemma_sorted_unique(evs);
        }
        let n = self.envs.len();
        let mut i: usize = 0;
        while i < n
            invariant
                i <= n,
                n == self.envs.len(),
                *self == *old(self),
                evs == self@.envs,
                disposition@ == d,
                old(self)@.wf(),
                forall|j: int| 0 <= j < i ==> lex_lt(#[trigger] evs[j].0, key@),
            decreases n - i,
        {
            let ord = str_compare(self.envs[i].key.as_str(), key);
            match ord {
                KeyOrder::Before => {
                    i += 1;
                }
                KeyOrder::Same => {
                    let entry = EnvEntry { key: String::from_str(key), disposition };
                    proof {
                        lemma_sorted_unique(evs);
                        assert(entry@ == (key@, d));
                        assert(evs[i as int].0 == key@);
                        lemma_env_map_update_at(evs, i as int, key@, d);
                    }
                    self.envs[i] = entry;
                    proof {
                        let t = self@.envs;
                        assert(self.envs@.len() == evs.len());
                        assert(self.envs@[i as int]@ == (key@, d));
                        assert forall|j: int| 0 <= j < t.len() implies t[j] == evs.update(
                            i as int,
                            (key@, d),
                        )[j] by {
                            if j != i {
                                assert(self.envs@[j] == old(self).envs@[j]);
                            }
                        }
                        assert(t =~= evs.update(i as int, (key@, d)));
                        assert(sorted_keys(t)) by {
                            assert forall|x: int, y: int| 0 <= x < y < t.len() implies #[trigger] lex_lt(
                                t[x].0,
                                t[y].0,
                            ) by {
                                assert(t[x].0 == evs[x].0);
                                assert(t[y].0 == evs[y].0);
                            }
                        }
                    }
                    return;
                }
                KeyOrder::After => {
                    proof {
                        lemma_insert_position(evs, i as int, key@);
                    }
                    self.envs.insert(i, EnvEntry { key: String::from_str(key), disposition });
                    proof {
                        let t = self@.envs;
                        assert(t =~= evs.insert(i as int, (key@, d)));
                        lemma_env_map_insert_at(evs, i as int, key@, d);
                        lemma_sorted_after_insert(evs, i as int, key@, d);
                    }
                    return;
                }
            }
        }
        proof {
            lemma_insert_position(evs, n as int, key@);
        }
        self.envs.insert(n, EnvEntry { key: String::from_str(key), disposition });
        proof {
            let t = self@.envs;
            assert(t =~= evs.insert(n as int, (key@, d)));
            lemma_env_map_insert_at(evs, n as int, key@, d);
            lemma_sorted_after_insert(evs, n as int, key@, d);
        }
    }
}

/// At the found position the key is fresh: everything before it is
/// strictly below the key, and the entry there (if any) strictly above.
proof fn lemma_insert_position(
    s: Seq<(Seq<char>, DispositionView)>,
    i: int,
    k: Seq<char>,
)
    requires
        sorted_keys(s),
        0 <= i <= s.len(),
        forall|j: int| 0 <= j < i ==> lex_lt(#[trigger] s[j].0, k),
        i < s.len() ==> lex_lt(k, s[i].0),
    ensures
        !entry_keys(s).contains(k),
{
    if entry_keys(s).contains(k) {
        let j = choose|j: int| 0 <= j < s.len() && s[j].0 == k;
        if j < i {
            lemma_lex_lt_ne(s[j].0, k);
        } else if j == i {
            lemma_lex_lt_ne(k, s[i].0);
        } else {
            assert(lex_lt(s[i].0, s[j].0));
            lemma_lex_lt_asymmetric(k, s[i].0);
        }
    }
}

proof fn lemma_sorted_after_insert(
    s: Seq<(Seq<char>, DispositionView)>,
    i: int,
    k: Seq<char>,
    d: DispositionView,
)
    requires
        sorted_keys(s),
        0 <= i <= s.len(),
        forall|j: int| 0 <= j < i ==> lex_lt(#[trigger] s[j].0, k),
        i < s.len() ==> lex_lt(k, s[i].0),
    ensures
        sorted_keys(s.insert(i, (k, d))),
{
    let t = s.insert(i, (k, d));
    assert forall|x: int, y: int| 0 <= x < y < t.len() implies #[trigger] lex_lt(t[x].0, t[y].0) by {
        if x < i {
            assert(t[x] == s[x]);
        } else if x == i {
            assert(t[x] == (k, d));
        } else {
            assert(t[x] == s[x - 1]);
        }
        if y < i {
            assert(t[y] == s[y]);
        } else if y == i {
            assert(t[y] == (k, d));
        } else {
            assert(t[y] == s[y - 1]);
        }
        if y == i {
            assert(lex_lt(t[x].0, k));
        } else if x == i {
            if y == i + 1 {
                assert(lex_lt(k, s[i].0));
            } else {
                assert(lex_lt(s[i].0, s[y - 1].0));
                lemma_lex_lt_trans(k, s[i].0, s[y - 1].0);
            }
        }
    }
}

} // verus!
