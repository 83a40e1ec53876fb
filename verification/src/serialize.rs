//! The remote command serializer, as a mathematical function of the builder
//! state, together with the laws it obeys: deterministic ordering, one token
//! per argument, injection-safe escaping, and the short-circuiting
//! working-directory clause.

use vstd::prelude::*;
use crate::command::CommandView;
use crate::digits::dec_rep;
use crate::env::{env_map, lemma_env_map_canonical, unique_keys, DispositionView};
use crate::escape::escaped;
use crate::shell::{lemma_escape_round_trip, shell_word_value};

verus! {

/// One `KEY=value` assignment token: the key verbatim, `=`, the value
/// escaped.
pub open spec fn env_token(k: Seq<char>, v: Seq<char>) -> Seq<char> {
    k + seq!['='] + escaped(v)
}

/// The assignment tokens of an entry list, in entry order: one token per
/// key set to a value; a key marked unset contributes no token.
pub open spec fn env_tokens(s: Seq<(Seq<char>, DispositionView)>) -> Seq<Seq<char>>
    decreases s.len(),
{
    if s.len() == 0 {
        Seq::empty()
    } else {
        (match s[0].1 {
            DispositionView::Assign(v) => seq![env_token(s[0].0, v)],
            DispositionView::Unset => Seq::<Seq<char>>::empty(),
        }) + env_tokens(s.skip(1))
    }
}

/// The directory clause: present exactly when a working directory is set,
/// conjoined with `&&` so that the remote shell does not go on to the
/// program when the directory change fails.
pub open spec fn cd_tokens(cwd: Option<Seq<char>>) -> Seq<Seq<char>> {
    match cwd {
        Some(d) => seq!["cd"@, escaped(d), "&&"@],
        None => Seq::empty(),
    }
}

/// The flattened remote command: the directory clause, then one token per
/// set environment key in canonical key order, then the program name
/// verbatim, then each argument escaped, in insertion order.
pub open spec fn spec_remote_tokens(c: CommandView) -> Seq<Seq<char>> {
    cd_tokens(c.cwd) + env_tokens(c.envs) + seq![c.program] + c.args.map_values(
        |a: Seq<char>| escaped(a),
    )
}

/// The whole argument vector handed to the transport binary: the port flag
/// when the port is not the default 22, then the target host, a `--`
/// separator, and the remote command tokens.
pub open spec fn spec_transport_argv(c: CommandView) -> Seq<Seq<char>> {
    (if c.port != 22 {
        seq!["-p"@, dec_rep(c.port as nat)]
    } else {
        Seq::<Seq<char>>::empty()
    }) + seq![c.host, "--"@] + spec_remote_tokens(c)
}

/// The assignment tokens of a concatenation are the concatenated
/// assignment tokens.
pub proof fn lemma_env_tokens_concat(
    a: Seq<(Seq<char>, DispositionView)>,
    b: Seq<(Seq<char>, DispositionView)>,
)
    ensures
        env_tokens(a + b) == env_tokens(a) + env_tokens(b),
    decreases a.len(),
{
    if a.len() == 0 {
        assert(a + b =~= b);
        assert(env_tokens(a) + env_tokens(b) =~= env_tokens(b));
    } else {
        assert((a + b).len() > 0);
        assert((a + b)[0] == a[0]);
        assert((a + b).skip(1) =~= a.skip(1) + b);
        lemma_env_tokens_concat(a.skip(1), b);
        assert(env_tokens(a + b) =~= env_tokens(a) + env_tokens(b));
    }
}

proof fn lemma_env_tokens_singleton(e: (Seq<char>, DispositionView))
    ensures
        env_tokens(seq![e]) == (match e.1 {
            DispositionView::Assign(v) => seq![env_token(e.0, v)],
            DispositionView::Unset => Seq::<Seq<char>>::empty(),
        }),
{
    assert(seq![e].skip(1) =~= Seq::<(Seq<char>, DispositionView)>::empty());
    assert(env_tokens(Seq::<(Seq<char>, DispositionView)>::empty()) =~= Seq::<Seq<char>>::empty());
    match e.1 {
        DispositionView::Assign(v) => {
            assert(env_tokens(seq![e]) =~= seq![env_token(e.0, v)]);
        }
        DispositionView::Unset => {
            assert(env_tokens(seq![e]) =~= Seq::<Seq<char>>::empty());
        }
    }
}

/// Every key whose current disposition is set-to-a-value contributes its
/// exact `KEY=value` token to the serialized assignments.
pub proof fn lemma_env_assignment_present(
    s: Seq<(Seq<char>, DispositionView)>,
    k: Seq<char>,
    v: Seq<char>,
)
    requires
        unique_keys(s),
        env_map(s).dom().contains(k),
        env_map(s)[k] == DispositionView::Assign(v),
    ensures
        exists|i: int| 0 <= i < env_tokens(s).len() && env_tokens(s)[i] == env_token(k, v),
    decreases s.len(),
{
    if s.len() == 0 {
        assert(env_map(s).dom() =~= Set::<Seq<char>>::empty());
    } else {
        let d = s.drop_last();
        assert(s =~= d + seq![s.last()]);
        lemma_env_tokens_concat(d, seq![s.last()]);
        lemma_env_tokens_singleton(s.last());
        if s.last().0 == k {
            assert(env_map(s)[k] == s.last().1);
            let i = env_tokens(s).len() - 1;
            assert(env_tokens(s)[i] == env_token(k, v));
        } else {
            assert(env_map(d).dom().contains(k));
            assert(env_map(d)[k] == DispositionView::Assign(v));
            assert(unique_keys(d)) by {
                assert forall|x: int, y: int| 0 <= x < y < d.len() implies (#[trigger] d[x].0)
                    != (#[trigger] d[y].0) by {
                    assert(d[x] == s[x]);
                    assert(d[y] == s[y]);
                }
            }
            lemma_env_assignment_present(d, k, v);
            let i = choose|i: int|
                0 <= i < env_tokens(d).len() && env_tokens(d)[i] == env_token(k, v);
            assert(env_tokens(s)[i] == env_token(k, v));
        }
    }
}

/// Argument preservation: after the program token the remote command holds
/// exactly one token per positional argument, in order, and the shell reads
/// each token back into exactly the original argument — arguments are
/// neither merged, re-split, nor expanded.
pub proof fn lemma_args_preserved(c: CommandView)
    ensures
        spec_remote_tokens(c).len() == cd_tokens(c.cwd).len() + env_tokens(c.envs).len() + 1
            + c.args.len(),
        forall|i: int|
            0 <= i < c.args.len() ==> shell_word_value(
                #[trigger] spec_remote_tokens(c)[cd_tokens(c.cwd).len() + env_tokens(c.envs).len()
                    + 1 + i],
                false,
            ) == Some(c.args[i]),
{
    let head = cd_tokens(c.cwd) + env_tokens(c.envs) + seq![c.program];
    assert forall|i: int| 0 <= i < c.args.len() implies shell_word_value(
        #[trigger] spec_remote_tokens(c)[cd_tokens(c.cwd).len() + env_tokens(c.envs).len() + 1
            + i],
        false,
    ) == Some(c.args[i]) by {
        assert(spec_remote_tokens(c)[head.len() + i] == c.args.map_values(
            |a: Seq<char>| escaped(a),
        )[i]);
        lemma_escape_round_trip(c.args[i]);
    }
}

/// Environment isolation: a key set to a value is serialized as the key,
/// `=`, and the escaped value, and the shell reads the value part back into
/// exactly the recorded value — a `$` inside it is never expanded.
pub proof fn lemma_env_value_isolated(k: Seq<char>, v: Seq<char>)
    ensures
        env_token(k, v) == k + seq!['='] + escaped(v),
        env_token(k, v).skip(k.len() as int + 1) == escaped(v),
        shell_word_value(escaped(v), false) == Some(v),
{
    assert(env_token(k, v).skip(k.len() as int + 1) =~= escaped(v));
    lemma_escape_round_trip(v);
}

/// The working-directory clause short-circuits: when a directory is set,
/// the remote command opens with `cd`, the escaped directory, and the `&&`
/// conjunction, and the program token stands only after that conjunction —
/// so a failed directory change stops the remote shell before the program.
/// With no directory set, no such clause is emitted.
pub proof fn lemma_cd_clause(c: CommandView)
    ensures
        match c.cwd {
            Some(d) => spec_remote_tokens(c).len() >= 4 && spec_remote_tokens(c)[0] == "cd"@
                && spec_remote_tokens(c)[1] == escaped(d) && spec_remote_tokens(c)[2] == "&&"@
                && shell_word_value(escaped(d), false) == Some(d),
            None => cd_tokens(c.cwd) == Seq::<Seq<char>>::empty(),
        },
{
    match c.cwd {
        Some(d) => {
            assert(spec_remote_tokens(c)[0] == cd_tokens(c.cwd)[0]);
            assert(spec_remote_tokens(c)[1] == cd_tokens(c.cwd)[1]);
            assert(spec_remote_tokens(c)[2] == cd_tokens(c.cwd)[2]);
            lemma_escape_round_trip(d);
        }
        None => {}
    }
}

/// Determinism: two well-formed commands that agree on program, host,
/// port, working directory and arguments, and whose environment insertions
/// — in whatever order they were made — ended at the same key/disposition
/// mapping, serialize to identical token vectors.
pub proof fn lemma_serialize_deterministic(a: CommandView, b: CommandView)
    requires
        a.wf(),
        b.wf(),
        a.program == b.program,
        a.host == b.host,
        a.port == b.port,
        a.cwd == b.cwd,
        a.args == b.args,
        env_map(a.envs) == env_map(b.envs),
    ensures
        spec_remote_tokens(a) == spec_remote_tokens(b),
        spec_transport_argv(a) == spec_transport_argv(b),
{
    lemma_env_map_canonical(a.envs, b.envs);
}

} // verus!
