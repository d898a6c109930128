//! Label chunker: `dotify` inserts a separator dot after every 57
//! characters so the encoded subdomain splits into DNS labels comfortably
//! below the 63-octet label ceiling; `undotify` removes all dots and is the
//! exact left inverse of `dotify` on dot-free input.

use vstd::prelude::*;

verus! {

/// Characters per label chunk, conservatively below the DNS ceiling of 63.
pub const CHUNK_LEN: usize = 57;

/// A dot after every 57 characters; no leading, trailing or doubled dots.
pub open spec fn spec_dotify(s: Seq<char>) -> Seq<char>
    decreases s.len(),
{
    if s.len() <= 57 {
        s
    } else {
        s.take(57) + seq!['.'] + spec_dotify(s.skip(57))
    }
}

/// All dots removed, every other character kept in order.
pub open spec fn spec_undotify(s: Seq<char>) -> Seq<char>
    decreases s.len(),
{
    if s.len() == 0 {
        Seq::empty()
    } else if s[0] == '.' {
        spec_undotify(s.drop_first())
    } else {
        seq![s[0]] + spec_undotify(s.drop_first())
    }
}

/// A sequence without any dot.
pub open spec fn dot_free(s: Seq<char>) -> bool {
    forall|i: int| 0 <= i < s.len() ==> #[trigger] s[i] != '.'
}

/// Removing dots distributes over concatenation.
pub proof fn lemma_undotify_concat(a: Seq<char>, b: Seq<char>)
    ensures
        spec_undotify(a + b) == spec_undotify(a) + spec_undotify(b),
    decreases a.len(),
{
    if a.len() == 0 {
        assert(a + b =~= b);
        assert(spec_undotify(a) + spec_undotify(b) =~= spec_undotify(b));
    } else {
        assert((a + b).drop_first() =~= a.drop_first() + b);
        lemma_undotify_concat(a.drop_first(), b);
        if a[0] == '.' {
        } else {
            assert(seq![a[0]] + (spec_undotify(a.drop_first()) + spec_undotify(b)) =~= (seq![a[0]]
                + spec_undotify(a.drop_first())) + spec_undotify(b));
        }
    }
}

/// Removing dots from a dot-free sequence changes nothing.
pub proof fn lemma_undotify_dot_free(s: Seq<char>)
    requires
        dot_free(s),
    ensures
        spec_undotify(s) == s,
    decreases s.len(),
{
    if s.len() == 0 {
        assert(spec_undotify(s) =~= s);
    } else {
        lemma_undotify_dot_free(s.drop_first());
        assert(seq![s[0]] + s.drop_first() =~= s);
    }
}

/// Idempotence law: removing the dots that `dotify` inserted restores the
/// original dot-free input exactly.
pub proof fn lemma_undotify_dotify(s: Seq<char>)
    requires
        dot_free(s),
    ensures
        spec_undotify(spec_dotify(s)) == s,
    decreases s.len(),
{
    if s.len() <= 57 {
        lemma_undotify_dot_free(s);
    } else {
        assert(dot_free(s.take(57)));
        assert(dot_free(s.skip(57)));
        lemma_undotify_dotify(s.skip(57));
        lemma_undotify_concat(s.take(57) + seq!['.'], spec_dotify(s.skip(57)));
        lemma_undotify_concat(s.take(57), seq!['.']);
        lemma_undotify_dot_free(s.take(57));
        let dot = seq!['.'];
        assert(dot[0] == '.');
        assert(dot.drop_first() =~= Seq::<char>::empty());
        assert(spec_undotify(Seq::<char>::empty()) == Seq::<char>::empty());
        assert(spec_undotify(dot) == spec_undotify(dot.drop_first()));
        assert(spec_undotify(dot) =~= Seq::<char>::empty());
        assert((s.take(57) + seq!['.']) + spec_dotify(s.skip(57)) =~= spec_dotify(s));
        assert(s.take(57) + Seq::<char>::empty() + s.skip(57) =~= s);
    }
}

/// The dotted length: the input's length plus one dot per started chunk
/// after the first.
pub proof fn lemma_dotify_len(s: Seq<char>)
    ensures
        s.len() == 0 ==> spec_dotify(s).len() == 0,
        s.len() >= 1 ==> spec_dotify(s).len() == s.len() + (s.len() - 1) / 57,
    decreases s.len(),
{
    if s.len() == 0 {
    } else if s.len() <= 57 {
        assert((s.len() - 1) / 57 == 0) by {
            vstd::arithmetic::div_mod::lemma_basic_div(s.len() - 1, 57);
        }
    } else {
        lemma_dotify_len(s.skip(57));
        assert((s.len() - 58) / 57 + 1 == (s.len() - 1) / 57) by {
            vstd::arithmetic::div_mod::lemma_hoist_over_denominator(s.len() - 58, 1, 57nat);
        }
    }
}

/// Executable `dotify`.
pub fn dotify(s: &str) -> (r: String)
    ensures
        r@ == spec_dotify(s@),
{
    let chars = crate::text::str_to_chars(s);
    let n = chars.len();
    let mut out: Vec<char> = Vec::new();
    let ghost mut done: Seq<char> = Seq::empty();
    let mut i: usize = 0;
    proof {
        assert(s@.skip(0) =~= s@);
        assert(done + spec_dotify(s@) =~= spec_dotify(s@));
    }
    while i < n
        invariant
            n == chars@.len(),
            chars@ == s@,
            i <= n,
            out@ == done,
            spec_dotify(s@) == done + spec_dotify(s@.skip(i as int)),
        decreases n - i,
    {
        let rem = n - i;
        let step = if rem > CHUNK_LEN { CHUNK_LEN } else { rem };
        let mut j: usize = 0;
        while j < step
            invariant
                n == chars@.len(),
                chars@ == s@,
                i + step <= n,
                j <= step,
                out@ == done + s@.subrange(i as int, i + j as int),
            decreases step - j,
        {
            out.push(chars[i + j]);
            j = j + 1;
            proof {
                assert(out@ =~= done + s@.subrange(i as int, i + j as int));
            }
        }
        let ghost tail = s@.skip(i as int);
        if rem > CHUNK_LEN {
            out.push('.');
            proof {
                assert(tail.take(57) =~= s@.subrange(i as int, i + 57));
                assert(tail.skip(57) =~= s@.skip(i + 57));
                done = done + tail.take(57) + seq!['.'];
                assert(out@ =~= done);
                assert(spec_dotify(tail) == tail.take(57) + seq!['.'] + spec_dotify(tail.skip(57)));
                assert(spec_dotify(s@) == done + spec_dotify(s@.skip(i + 57)));
            }
        } else {
            proof {
                assert(s@.subrange(i as int, i + step as int) =~= tail);
                done = done + tail;
                assert(out@ =~= done);
                assert(spec_dotify(tail) == tail);
                assert(s@.skip(i + step as int) =~= Seq::<char>::empty());
                assert(spec_dotify(s@) == done + spec_dotify(s@.skip(i + step as int)));
            }
        }
        i = i + step;
    }
    proof {
        assert(s@.skip(n as int) =~= Seq::<char>::empty());
        assert(out@ =~= spec_dotify(s@));
    }
    crate::text::chars_to_string(&out)
}

/// Executable `undotify`.
pub fn undotify(s: &str) -> (r: String)
    ensures
        r@ == spec_undotify(s@),
{
    let chars = crate::text::str_to_chars(s);
    let n = chars.len();
    let mut out: Vec<char> = Vec::new();
    let mut i: usize = 0;
    proof {
        assert(s@.skip(0) =~= s@);
        assert(out@ + spec_undotify(s@) =~= spec_undotify(s@));
    }
    while i < n
        invariant
            n == chars@.len(),
            chars@ == s@,
            i <= n,
            spec_undotify(s@) == out@ + spec_undotify(s@.skip(i as int)),
        decreases n - i,
    {
        let c = chars[i];
        proof {
            let tail = s@.skip(i as int);
            assert(tail[0] == s@[i as int]);
            assert(tail.drop_first() =~= s@.skip(i + 1));
        }
        if c != '.' {
            out.push(c);
        }
        i = i + 1;
    }
    proof {
        assert(s@.skip(n as int) =~= Seq::<char>::empty());
        assert(out@ =~= spec_undotify(s@));
    }
    crate::text::chars_to_string(&out)
}

} // verus!
