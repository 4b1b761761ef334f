//! Body rendering: a two-state lexer over the body text that drops everything
//! between `<` and `>` and emits the rest. Deliberately crude: it does not
//! understand attribute values or comments.

use vstd::prelude::*;

use crate::text::{push_char, to_char_vec};

verus! {

/// The rendered text of `s`, entered with the lexer inside a tag when
/// `in_tag` holds: `<` enters a tag, `>` leaves it, and any other character
/// is emitted only outside a tag.
pub open spec fn render_spec(s: Seq<char>, in_tag: bool) -> Seq<char>
    decreases s.len(),
{
    if s.len() == 0 {
        Seq::<char>::empty()
    } else {
        let c = s[0];
        let rest = s.drop_first();
        if c == '<' {
            render_spec(rest, true)
        } else if c == '>' {
            render_spec(rest, false)
        } else if !in_tag {
            seq![c] + render_spec(rest, in_tag)
        } else {
            render_spec(rest, in_tag)
        }
    }
}

/// Rendered text never contains a tag delimiter.
pub proof fn lemma_render_tag_free(s: Seq<char>, in_tag: bool)
    ensures
        forall|i: int|
            0 <= i < render_spec(s, in_tag).len() ==> #[trigger] render_spec(s, in_tag)[i] != '<'
                && render_spec(s, in_tag)[i] != '>',
    decreases s.len(),
{
    if s.len() > 0 {
        let c = s[0];
        let rest = s.drop_first();
        if c == '<' {
            lemma_render_tag_free(rest, true);
        } else if c == '>' {
            lemma_render_tag_free(rest, false);
        } else {
            lemma_render_tag_free(rest, in_tag);
        }
        assert forall|i: int| 0 <= i < render_spec(s, in_tag).len() implies #[trigger] render_spec(
            s,
            in_tag,
        )[i] != '<' && render_spec(s, in_tag)[i] != '>' by {
            if c == '<' {
                assert(render_spec(s, in_tag)[i] == render_spec(rest, true)[i]);
            } else if c == '>' {
                assert(render_spec(s, in_tag)[i] == render_spec(rest, false)[i]);
            } else if in_tag {
                assert(render_spec(s, in_tag)[i] == render_spec(rest, in_tag)[i]);
            } else if i > 0 {
                assert(render_spec(s, in_tag)[i] == render_spec(rest, in_tag)[i - 1]);
            }
        }
    }
}

/// Rendering text that is free of tag delimiters changes nothing.
pub proof fn lemma_render_plain_noop(s: Seq<char>)
    requires
        forall|i: int| 0 <= i < s.len() ==> #[trigger] s[i] != '<' && s[i] != '>',
    ensures
        render_spec(s, false) == s,
    decreases s.len(),
{
    if s.len() == 0 {
        assert(render_spec(s, false) =~= s);
    } else {
        lemma_render_plain_noop(s.drop_first());
        assert(seq![s[0]] + s.drop_first() =~= s);
    }
}

/// Rendering is idempotent: rendering already-rendered text is a no-op.
pub proof fn lemma_render_idempotent(s: Seq<char>)
    ensures
        render_spec(render_spec(s, false), false) == render_spec(s, false),
{
    lemma_render_tag_free(s, false);
    lemma_render_plain_noop(render_spec(s, false));
}

/// Renders `body` with the lexer starting outside any tag.
pub fn render(body: &str) -> (r: String)
    ensures
        r@ == render_spec(body@, false),
{
    let v = to_char_vec(body);
    let n = v.len();
    let mut out = String::new();
    let mut in_tag = false;
    let mut i: usize = 0;
    proof {
        assert(v@.skip(0) =~= v@);
        assert(Seq::<char>::empty() + render_spec(v@, false) =~= render_spec(v@, false));
    }
    while i < n
        invariant
            i <= n,
            n == v@.len(),
            v@ == body@,
            render_spec(body@, false) == out@ + render_spec(v@.skip(i as int), in_tag),
        decreases n - i,
    {
        let c = v[i];
        proof {
            assert(v@.skip(i as int)[0] == v@[i as int]);
            assert(v@.skip(i as int).drop_first() =~= v@.skip(i + 1));
        }
        if c == '<' {
            in_tag = true;
        } else if c == '>' {
            in_tag = false;
        } else if !in_tag {
            let ghost prev = out@;
            push_char(&mut out, c);
            proof {
                assert(out@ + render_spec(v@.skip(i + 1), in_tag) =~= prev + (seq![c]
                    + render_spec(v@.skip(i + 1), in_tag)));
            }
        }
        i += 1;
    }
    proof {
        assert(v@.skip(n as int) =~= Seq::<char>::empty());
        assert(out@ + render_spec(v@.skip(n as int), in_tag) =~= out@);
    }
    out
}

} // verus!
