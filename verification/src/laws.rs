//! General laws of the flattening engine, stated and proved over its
//! ghost model [`run`].

use vstd::prelude::*;
use crate::lexer;
use crate::lexer::Token;
use crate::lexer::ValueModel;
use crate::shell::dec_chars;
use crate::shell::lemma_wf_stack_widen;
use crate::shell::open_at;
use crate::shell::run;
use crate::shell::wf_stack;
use crate::shell::State;

verus! {

/// The scalar a value token carries; a null for any other token (the
/// shapes below never ask for one).
pub open spec fn scalar_model(t: Token) -> ValueModel {
    match t {
        Token::Value(v) => v@,
        _ => ValueModel::Null,
    }
}

/// The key text a value token carries; empty for any other token.
pub open spec fn key_model(t: Token) -> Seq<char> {
    match t {
        Token::Value(lexer::Value::Text(s)) => s@,
        _ => Seq::empty(),
    }
}

/// The token shape of a flat array of `n` scalars: an opening bracket,
/// the scalars separated by single commas, a closing bracket.
pub open spec fn flat_array_shape(toks: Seq<Token>, n: nat) -> bool {
    &&& toks.len() == 2 * n + 1
    &&& toks[0] matches Token::LBracket
    &&& toks[(2 * n) as int] matches Token::RBracket
    &&& (forall|k: int|
        0 < k < 2 * n && k % 2 == 1 ==> (#[trigger] toks[k]) matches Token::Value(_))
    &&& (forall|k: int|
        0 < k < 2 * n && k % 2 == 0 ==> (#[trigger] toks[k]) matches Token::Comma)
}

/// The pairs a flat run of scalar array elements emits: one per element,
/// the element at offset `i` (counter `j + i`) named by the context's
/// anchor path and the counter in decimal.
pub open spec fn array_pairs(elems: Seq<Token>, path: Seq<char>, j: nat, n: nat) -> Seq<
    (Seq<char>, ValueModel),
> {
    Seq::new((n - j) as nat, |i: int| (path + dec_chars((j + i) as nat), scalar_model(elems[2 * i])))
}

/// Law (arrays, in any context): an open array context, however deep in
/// the document and whatever follows its close, emits exactly one pair
/// per direct scalar element, in order: the element at offset `i` from
/// counter `j` is named by the context's anchor path and `j + i` in
/// decimal, with no leading zeros, and carries that element's scalar. The
/// close bracket then hands the run on to the continuation with the
/// anchor restored and the surrounding stack intact (a pending-value
/// marker under the array is retired), so indices advance by exactly one
/// per comma whatever stands around the array.
pub proof fn lemma_array_context(
    elems: Seq<Token>,
    cont: Seq<Token>,
    stack: Seq<State>,
    path: Seq<char>,
    b: nat,
    j: nat,
    n: nat,
)
    requires
        j < n,
        n <= usize::MAX,
        b < usize::MAX,
        b + 1 == path.len(),
        elems.len() == 2 * (n - j),
        (forall|k: int|
            0 <= k < elems.len() - 1 && k % 2 == 0 ==> (#[trigger] elems[k]) matches Token::Value(
                _,
            )),
        (forall|k: int|
            0 <= k < elems.len() - 1 && k % 2 == 1 ==> (#[trigger] elems[k])
                matches Token::Comma),
        elems[elems.len() - 1] matches Token::RBracket,
    ensures
        ({
            let out = run(stack.push(State::Array(j as usize, b as usize)), path, elems + cont);
            let s2 = if stack.len() > 0 && (stack.last() matches State::ExpectObjectValue) {
                stack.drop_last()
            } else {
                stack
            };
            let tailout = run(s2, path.take(b as int), cont);
            &&& out.err == tailout.err
            &&& out.pairs == array_pairs(elems, path, j, n) + tailout.pairs
        }),
    decreases n - j,
{
    let arr = stack.push(State::Array(j as usize, b as usize));
    let toks = elems + cont;
    let out = run(arr, path, toks);
    let s2 = if stack.len() > 0 && (stack.last() matches State::ExpectObjectValue) {
        stack.drop_last()
    } else {
        stack
    };
    let tailout = run(s2, path.take(b as int), cont);
    let s_emit = array_pairs(elems, path, j, n);
    assert(toks[0] == elems[0]);
    assert(elems[0] matches Token::Value(_));
    assert((j as usize) as nat == j);
    let p1 = path + dec_chars(j);
    let pm = (p1, scalar_model(elems[0]));
    let rest1 = toks.drop_first();
    assert(rest1 =~= elems.drop_first() + cont);
    assert(rest1[0] == elems[1]);
    let mid1 = run(arr, p1, rest1);
    assert(out.pairs == seq![pm] + mid1.pairs);
    assert(out.err == mid1.err);
    if j + 1 < n {
        assert(elems[1] matches Token::Comma);
        assert(arr.drop_last() =~= stack);
        assert(p1.take((b + 1) as int) =~= path);
        let arr2 = stack.push(State::Array((j + 1) as usize, b as usize));
        assert(arr.drop_last().push(State::Array(((j as usize) + 1) as usize, b as usize))
            =~= arr2);
        let tail = elems.skip(2);
        assert(rest1.drop_first() =~= tail + cont);
        assert(mid1 == run(arr2, path, tail + cont));
        assert(tail.len() == 2 * (n - (j + 1)));
        assert forall|k: int|
            0 <= k < tail.len() - 1 && k % 2 == 0 implies (#[trigger] tail[k]) matches Token::Value(
            _,
        ) by {
            assert(tail[k] == elems[k + 2]);
        }
        assert forall|k: int|
            0 <= k < tail.len() - 1 && k % 2 == 1 implies (#[trigger] tail[k]) matches Token::Comma by {
            assert(tail[k] == elems[k + 2]);
        }
        assert(tail[tail.len() - 1] == elems[elems.len() - 1]);
        lemma_array_context(tail, cont, stack, path, b, j + 1, n);
        let out2 = run(arr2, path, tail + cont);
        let s_emit2 = array_pairs(tail, path, (j + 1) as nat, n);
        assert(out2.pairs == s_emit2 + tailout.pairs);
        assert forall|i: int| 0 <= i < s_emit.len() implies (seq![pm] + s_emit2)[i]
            == s_emit[i] by {
            if i > 0 {
                assert(tail[2 * (i - 1)] == elems[2 * i]);
                assert(s_emit2[i - 1] == (
                    path + dec_chars((j + 1 + (i - 1)) as nat),
                    scalar_model(tail[2 * (i - 1)]),
                ));
            }
        }
        assert(seq![pm] + s_emit2 =~= s_emit);
        assert(out.pairs =~= s_emit + tailout.pairs);
    } else {
        assert(elems.len() == 2);
        assert(elems[1] matches Token::RBracket);
        assert(arr.drop_last() =~= stack);
        assert(p1.take(b as int) =~= path.take(b as int));
        let mid2 = run(s2, p1.take(b as int), rest1.drop_first());
        assert(mid1 == mid2);
        assert(rest1.drop_first() =~= cont);
        assert(mid2 == tailout);
        assert(s_emit =~= seq![pm]);
        assert(out.pairs =~= s_emit + tailout.pairs);
    }
}

/// Law: for a well-formed flat array of `n` scalar elements, the engine
/// emits exactly one pair per element, in document order, and the `j`-th
/// pair's name is the root name, the separator, and `j` in decimal with
/// no leading zeros, its value the `j`-th element's scalar: indices run
/// `0` to `n - 1`, one each.
pub proof fn lemma_array_indices(toks: Seq<Token>, root: Seq<char>, n: nat)
    requires
        flat_array_shape(toks, n),
        n <= usize::MAX,
        root.len() < usize::MAX,
    ensures
        ({
            let out = run(Seq::<State>::empty(), root, toks);
            &&& out.err is None
            &&& out.pairs.len() == n
            &&& (forall|j: int|
                0 <= j < n ==> (#[trigger] out.pairs[j]) == (
                    root.push('_') + dec_chars(j as nat),
                    scalar_model(toks[2 * j + 1]),
                ))
        }),
{
    let out = run(Seq::<State>::empty(), root, toks);
    let stack1 = Seq::<State>::empty().push(State::Array(0, root.len() as usize));
    let path1 = root.push('_');
    let rest = toks.drop_first();
    let mid1 = run(stack1, path1, rest);
    assert(out == mid1);
    if n == 0 {
        assert(toks[1] == rest[0]);
        assert(toks[1] matches Token::RBracket);
        assert(stack1.drop_last() =~= Seq::<State>::empty());
        let mid2 = run(
            Seq::<State>::empty(),
            path1.take(root.len() as usize as int),
            rest.drop_first(),
        );
        assert(mid1 == mid2);
        assert(rest.drop_first() =~= Seq::<Token>::empty());
        assert(mid2.pairs.len() == 0 && mid2.err is None);
    } else {
        let tail = toks.skip(1);
        assert(rest =~= tail);
        assert(tail.len() == 2 * n);
        assert forall|k: int|
            0 <= k < tail.len() - 1 && k % 2 == 0 implies (#[trigger] tail[k]) matches Token::Value(
            _,
        ) by {
            assert(tail[k] == toks[k + 1]);
        }
        assert forall|k: int|
            0 <= k < tail.len() - 1 && k % 2 == 1 implies (#[trigger] tail[k]) matches Token::Comma by {
            assert(tail[k] == toks[k + 1]);
        }
        assert(tail[tail.len() - 1] == toks[(2 * n) as int]);
        lemma_array_context(tail, Seq::<Token>::empty(), Seq::<State>::empty(), path1, root.len(), 0, n);
        let out1 = run(stack1, path1, tail + Seq::<Token>::empty());
        assert(tail + Seq::<Token>::empty() =~= tail);
        let tail0 = run(Seq::<State>::empty(), path1.take(root.len() as int), Seq::<Token>::empty());
        assert(tail0.pairs.len() == 0 && tail0.err is None);
        assert(mid1 == out1);
        assert(out1.pairs =~= array_pairs(tail, path1, 0, n));
        assert forall|j: int| 0 <= j < n implies (#[trigger] out.pairs[j]) == (
            root.push('_') + dec_chars(j as nat),
            scalar_model(toks[2 * j + 1]),
        ) by {
            assert(out.pairs[j] == array_pairs(tail, path1, 0, n)[j]);
            assert(tail[2 * j] == toks[2 * j + 1]);
        }
    }
}

/// The token shape of a flat object of `n` text keys with scalar values:
/// an opening brace, then key, colon and value for each entry, entries
/// separated by single commas, a closing brace.
pub open spec fn flat_object_shape(toks: Seq<Token>, n: nat) -> bool {
    &&& n >= 1
    &&& toks.len() == 4 * n + 1
    &&& toks[0] matches Token::LBrace
    &&& toks[(4 * n) as int] matches Token::RBrace
    &&& (forall|k: int|
        0 < k < 4 * n && k % 4 == 1 ==> (#[trigger] toks[k]) matches Token::Value(
            lexer::Value::Text(_),
        ))
    &&& (forall|k: int|
        0 < k < 4 * n && k % 4 == 2 ==> (#[trigger] toks[k]) matches Token::Colon)
    &&& (forall|k: int|
        0 < k < 4 * n && k % 4 == 3 ==> (#[trigger] toks[k]) matches Token::Value(_))
    &&& (forall|k: int|
        0 < k < 4 * n && k % 4 == 0 ==> (#[trigger] toks[k]) matches Token::Comma)
}

/// The pairs a flat run of object entries emits: one per entry, named by
/// the context's anchor path and the entry's key, carrying its scalar.
pub open spec fn object_pairs(entries: Seq<Token>, path: Seq<char>, j: nat, n: nat) -> Seq<
    (Seq<char>, ValueModel),
> {
    Seq::new(
        (n - j) as nat,
        |i: int| (path + key_model(entries[4 * i]), scalar_model(entries[4 * i + 2])),
    )
}

/// Law (objects, in any context): an open object context, however deep in
/// the document and whatever follows its close, emits exactly one pair
/// per key/value entry, in source order, named by the context's anchor
/// path and that entry's key; the key text alone emits nothing, repeated
/// keys emit one pair per occurrence and nothing is merged. The close
/// brace then hands the run on to the continuation with the anchor
/// restored and the surrounding stack intact.
pub proof fn lemma_object_context(
    entries: Seq<Token>,
    cont: Seq<Token>,
    stack: Seq<State>,
    path: Seq<char>,
    b: nat,
    j: nat,
    n: nat,
)
    requires
        j < n,
        b < usize::MAX,
        b + 1 == path.len(),
        entries.len() == 4 * (n - j),
        (forall|k: int|
            0 <= k < entries.len() - 1 && k % 4 == 0 ==> (#[trigger] entries[k])
                matches Token::Value(lexer::Value::Text(_))),
        (forall|k: int|
            0 <= k < entries.len() - 1 && k % 4 == 1 ==> (#[trigger] entries[k])
                matches Token::Colon),
        (forall|k: int|
            0 <= k < entries.len() - 1 && k % 4 == 2 ==> (#[trigger] entries[k])
                matches Token::Value(_)),
        (forall|k: int|
            0 <= k < entries.len() - 1 && k % 4 == 3 ==> (#[trigger] entries[k])
                matches Token::Comma),
        entries[entries.len() - 1] matches Token::RBrace,
    ensures
        ({
            let out = run(stack.push(State::Object(b as usize)), path, entries + cont);
            let tailout = run(stack, path.take(b as int), cont);
            &&& out.err == tailout.err
            &&& out.pairs == object_pairs(entries, path, j, n) + tailout.pairs
        }),
    decreases n - j,
{
    let obj = stack.push(State::Object(b as usize));
    let toks = entries + cont;
    let out = run(obj, path, toks);
    let tailout = run(stack, path.take(b as int), cont);
    let s_emit = object_pairs(entries, path, j, n);
    assert(toks[0] == entries[0]);
    assert(entries[0] matches Token::Value(lexer::Value::Text(_)));
    assert(entries[1] matches Token::Colon);
    assert(entries[2] matches Token::Value(_));
    let pk = path + key_model(entries[0]);
    assert(path.take((b + 1) as int) + key_model(entries[0]) =~= pk);
    let marked = obj.push(State::ExpectObjectValue);
    let r1 = toks.drop_first();
    assert(r1 =~= entries.drop_first() + cont);
    assert(r1[0] == entries[1]);
    let r2 = r1.drop_first();
    assert(r2 =~= entries.skip(2) + cont);
    assert(r2[0] == entries[2]);
    let r3 = r2.drop_first();
    assert(r3 =~= entries.skip(3) + cont);
    // Key: the marker is pushed and the key appended; colon: the marker
    // stands on top, nothing changes; value: one pair is emitted under the
    // key's path and the marker is popped.
    let mid_k = run(marked, pk, r1);
    assert(out == mid_k);
    let mid_c = run(marked, pk, r2);
    assert(marked.last() matches State::ExpectObjectValue);
    assert(mid_k == mid_c);
    let pm = (pk, scalar_model(entries[2]));
    assert(marked.drop_last() =~= obj);
    let mid_v = run(obj, pk, r3);
    assert(mid_c.pairs == seq![pm] + mid_v.pairs);
    assert(mid_c.err == mid_v.err);
    if j + 1 < n {
        assert(entries[3] matches Token::Comma);
        assert(r3[0] == entries[3]);
        assert(pk.take((b + 1) as int) =~= path);
        assert(obj.drop_last() =~= stack);
        assert(obj.drop_last().push(State::Object(b as usize)) =~= obj);
        let tail = entries.skip(4);
        assert(r3.drop_first() =~= tail + cont);
        assert(mid_v == run(obj, path, tail + cont));
        assert(tail.len() == 4 * (n - (j + 1)));
        assert forall|k: int|
            0 <= k < tail.len() - 1 && k % 4 == 0 implies (#[trigger] tail[k]) matches Token::Value(
            lexer::Value::Text(_),
        ) by {
            assert(tail[k] == entries[k + 4]);
        }
        assert forall|k: int|
            0 <= k < tail.len() - 1 && k % 4 == 1 implies (#[trigger] tail[k]) matches Token::Colon by {
            assert(tail[k] == entries[k + 4]);
        }
        assert forall|k: int|
            0 <= k < tail.len() - 1 && k % 4 == 2 implies (#[trigger] tail[k]) matches Token::Value(
            _,
        ) by {
            assert(tail[k] == entries[k + 4]);
        }
        assert forall|k: int|
            0 <= k < tail.len() - 1 && k % 4 == 3 implies (#[trigger] tail[k]) matches Token::Comma by {
            assert(tail[k] == entries[k + 4]);
        }
        assert(tail[tail.len() - 1] == entries[entries.len() - 1]);
        lemma_object_context(tail, cont, stack, path, b, j + 1, n);
        let out2 = run(obj, path, tail + cont);
        let s_emit2 = object_pairs(tail, path, (j + 1) as nat, n);
        assert(out2.pairs == s_emit2 + tailout.pairs);
        assert forall|i: int| 0 <= i < s_emit.len() implies (seq![pm] + s_emit2)[i]
            == s_emit[i] by {
            if i > 0 {
                assert(tail[4 * (i - 1)] == entries[4 * i]);
                assert(tail[4 * (i - 1) + 2] == entries[4 * i + 2]);
                assert(s_emit2[i - 1] == (
                    path + key_model(tail[4 * (i - 1)]),
                    scalar_model(tail[4 * (i - 1) + 2]),
                ));
            }
        }
        assert(seq![pm] + s_emit2 =~= s_emit);
        assert(out.pairs =~= s_emit + tailout.pairs);
    } else {
        assert(entries.len() == 4);
        assert(entries[3] matches Token::RBrace);
        assert(r3[0] == entries[3]);
        assert(obj.drop_last() =~= stack);
        assert(pk.take(b as int) =~= path.take(b as int));
        let mid2 = run(stack, pk.take(b as int), r3.drop_first());
        assert(mid_v == mid2);
        assert(r3.drop_first() =~= cont);
        assert(mid2 == tailout);
        assert(s_emit =~= seq![pm]);
        assert(out.pairs =~= s_emit + tailout.pairs);
    }
}

/// Law: for a well-formed flat object, each key and value in source order
/// produces exactly one output pair, named by the root name, the
/// separator and that key, in that order; a key repeated in the document
/// emits one pair per occurrence, nothing is merged.
pub proof fn lemma_object_pairs(toks: Seq<Token>, root: Seq<char>, n: nat)
    requires
        flat_object_shape(toks, n),
        root.len() < usize::MAX,
    ensures
        ({
            let out = run(Seq::<State>::empty(), root, toks);
            &&& out.err is None
            &&& out.pairs.len() == n
            &&& (forall|j: int|
                0 <= j < n ==> (#[trigger] out.pairs[j]) == (
                    root.push('_') + key_model(toks[4 * j + 1]),
                    scalar_model(toks[4 * j + 3]),
                ))
        }),
{
    let out = run(Seq::<State>::empty(), root, toks);
    let stack1 = Seq::<State>::empty().push(State::Object(root.len() as usize));
    let path1 = root.push('_');
    let rest = toks.drop_first();
    let mid1 = run(stack1, path1, rest);
    assert(out == mid1);
    let tail = toks.skip(1);
    assert(rest =~= tail);
    assert(tail.len() == 4 * n);
    assert forall|k: int|
        0 <= k < tail.len() - 1 && k % 4 == 0 implies (#[trigger] tail[k]) matches Token::Value(
        lexer::Value::Text(_),
    ) by {
        assert(tail[k] == toks[k + 1]);
    }
    assert forall|k: int|
        0 <= k < tail.len() - 1 && k % 4 == 1 implies (#[trigger] tail[k]) matches Token::Colon by {
        assert(tail[k] == toks[k + 1]);
    }
    assert forall|k: int|
        0 <= k < tail.len() - 1 && k % 4 == 2 implies (#[trigger] tail[k]) matches Token::Value(
        _,
    ) by {
        assert(tail[k] == toks[k + 1]);
    }
    assert forall|k: int|
        0 <= k < tail.len() - 1 && k % 4 == 3 implies (#[trigger] tail[k]) matches Token::Comma by {
        assert(tail[k] == toks[k + 1]);
    }
    assert(tail[tail.len() - 1] == toks[(4 * n) as int]);
    lemma_object_context(tail, Seq::<Token>::empty(), Seq::<State>::empty(), path1, root.len(), 0, n);
    let out1 = run(stack1, path1, tail + Seq::<Token>::empty());
    assert(tail + Seq::<Token>::empty() =~= tail);
    let tail0 = run(Seq::<State>::empty(), path1.take(root.len() as int), Seq::<Token>::empty());
    assert(tail0.pairs.len() == 0 && tail0.err is None);
    assert(mid1 == out1);
    assert(out1.pairs =~= object_pairs(tail, path1, 0, n));
    assert forall|j: int| 0 <= j < n implies (#[trigger] out.pairs[j]) == (
        root.push('_') + key_model(toks[4 * j + 1]),
        scalar_model(toks[4 * j + 3]),
    ) by {
        assert(out.pairs[j] == object_pairs(tail, path1, 0, n)[j]);
        assert(tail[4 * j] == toks[4 * j + 1]);
        assert(tail[4 * j + 2] == toks[4 * j + 3]);
    }
}

/// Powers of ten, for bounding decimal renderings.
pub open spec fn pow10(k: nat) -> nat
    decreases k,
{
    if k == 0 {
        1
    } else {
        10 * pow10((k - 1) as nat)
    }
}

proof fn lemma_dec_chars_len(n: nat, k: nat)
    requires
        n < pow10(k),
        k >= 1,
    ensures
        dec_chars(n).len() <= k,
    decreases k,
{
    if n < 10 {
    } else {
        assert(pow10(k) == 10 * pow10((k - 1) as nat));
        if k == 1 {
            assert(pow10(0) == 1);
            assert(false);
        }
        assert(n / 10 < pow10((k - 1) as nat)) by (nonlinear_arith)
            requires
                n < 10 * pow10((k - 1) as nat),
        ;
        lemma_dec_chars_len(n / 10, (k - 1) as nat);
    }
}

/// A machine-sized counter's decimal rendering has at most twenty digits.
proof fn lemma_dec_chars_len20(n: nat)
    requires
        n <= usize::MAX,
    ensures
        dec_chars(n).len() <= 20,
{
    assert(pow10(0) == 1);
    assert(pow10(1) == 10);
    assert(pow10(2) == 100);
    assert(pow10(3) == 1000);
    assert(pow10(4) == 10000);
    assert(pow10(5) == 100000);
    assert(pow10(6) == 1000000);
    assert(pow10(7) == 10000000);
    assert(pow10(8) == 100000000);
    assert(pow10(9) == 1000000000);
    assert(pow10(10) == 10000000000);
    assert(pow10(11) == 100000000000);
    assert(pow10(12) == 1000000000000);
    assert(pow10(13) == 10000000000000);
    assert(pow10(14) == 100000000000000);
    assert(pow10(15) == 1000000000000000);
    assert(pow10(16) == 10000000000000000);
    assert(pow10(17) == 100000000000000000);
    assert(pow10(18) == 1000000000000000000);
    assert(pow10(19) == 10000000000000000000);
    assert(pow10(20) == 100000000000000000000);
    lemma_dec_chars_len(n, 20);
}

/// The most the path buffer can grow over these tokens: each token adds
/// at most a separator and a twenty-digit index, a key also its text.
pub open spec fn growth_budget(toks: Seq<Token>) -> nat
    decreases toks.len(),
{
    if toks.len() == 0 {
        0
    } else {
        (match toks[0] {
            Token::Value(lexer::Value::Text(s)) => s@.len() + 21,
            _ => 21,
        }) + growth_budget(toks.drop_first())
    }
}

/// Every context on the stack records an anchor of at least `m`.
pub open spec fn bases_at_least(stack: Seq<State>, m: nat) -> bool {
    forall|i: int|
        0 <= i < stack.len() ==> match #[trigger] stack[i] {
            State::Array(idx, b) => b >= m,
            State::Object(b) => b >= m,
            State::ExpectObjectValue => true,
        }
}

/// Dropping the top of the stack keeps every anchor at or above `m`.
proof fn lemma_bases_drop(stack: Seq<State>, m: nat)
    requires
        bases_at_least(stack, m),
        stack.len() > 0,
    ensures
        bases_at_least(stack.drop_last(), m),
{
    assert forall|i: int|
        0 <= i < stack.drop_last().len() implies match #[trigger] stack.drop_last()[i] {
        State::Array(idx, b) => b >= m,
        State::Object(b) => b >= m,
        State::ExpectObjectValue => true,
    } by {
        assert(stack.drop_last()[i] == stack[i]);
    }
}

/// Pushing a context whose anchor is at least `m` keeps the property.
proof fn lemma_bases_push(stack: Seq<State>, m: nat, x: State)
    requires
        bases_at_least(stack, m),
        match x {
            State::Array(idx, b) => b >= m,
            State::Object(b) => b >= m,
            State::ExpectObjectValue => true,
        },
    ensures
        bases_at_least(stack.push(x), m),
{
    assert forall|i: int|
        0 <= i < stack.push(x).len() implies match #[trigger] stack.push(x)[i] {
        State::Array(idx, b) => b >= m,
        State::Object(b) => b >= m,
        State::ExpectObjectValue => true,
    } by {
        if i < stack.len() {
            assert(stack.push(x)[i] == stack[i]);
        } else {
            assert(stack.push(x)[i] == x);
        }
    }
}

/// One token costs at least its share of the growth budget.
proof fn lemma_budget_step(toks: Seq<Token>)
    requires
        toks.len() > 0,
    ensures
        growth_budget(toks) >= 21 + growth_budget(toks.drop_first()),
        (toks[0] matches Token::Value(lexer::Value::Text(s)) ==> growth_budget(toks) == s@.len()
            + 21 + growth_budget(toks.drop_first())),
{
}

/// Law (path composition by nesting): on a well-formed stack whose
/// anchors all lie at or above `m`, a run never rewrites the path
/// buffer's first `m` characters, so every pair it emits carries them as
/// a prefix of its name. An inner container's pairs therefore all begin
/// with the outer container's path, segment by segment.
pub proof fn lemma_path_prefix(stack: Seq<State>, path: Seq<char>, toks: Seq<Token>, m: nat)
    requires
        m <= path.len(),
        path.len() + growth_budget(toks) <= usize::MAX,
        wf_stack(stack, path.len() as nat),
        bases_at_least(stack, m),
    ensures
        forall|i: int|
            0 <= i < run(stack, path, toks).pairs.len() ==> (#[trigger] run(
                stack,
                path,
                toks,
            ).pairs[i]).0.take(m as int) == path.take(m as int),
    decreases toks.len(),
{
    let out = run(stack, path, toks);
    if toks.len() == 0 {
    } else {
        let rest = toks.drop_first();
        match toks[0] {
            Token::LBracket => {
                let sp = open_at(stack, path);
                lemma_open_at(stack, path, m);
                lemma_budget_step(toks);
                assert(sp.1.len() + 1 + growth_budget(rest) <= usize::MAX);
                assert((sp.1.len() as usize) as nat == sp.1.len());
                let st2 = sp.0.push(State::Array(0, sp.1.len() as usize));
                let p2 = sp.1.push('_');
                assert(out == run(st2, p2, rest));
                lemma_bases_push(sp.0, m, State::Array(0, sp.1.len() as usize));
                assert(st2.drop_last() =~= sp.0);
                assert(wf_stack(st2, p2.len() as nat));
                assert(p2.take(m as int) =~= path.take(m as int));
                lemma_path_prefix(st2, p2, rest, m);
                assert forall|i: int|
                    0 <= i < out.pairs.len() implies (#[trigger] out.pairs[i]).0.take(m as int)
                    == path.take(m as int) by {
                    assert(out.pairs[i] == run(st2, p2, rest).pairs[i]);
                }
            },
            Token::LBrace => {
                let sp = open_at(stack, path);
                lemma_open_at(stack, path, m);
                lemma_budget_step(toks);
                assert(sp.1.len() + 1 + growth_budget(rest) <= usize::MAX);
                assert((sp.1.len() as usize) as nat == sp.1.len());
                let st2 = sp.0.push(State::Object(sp.1.len() as usize));
                let p2 = sp.1.push('_');
                assert(out == run(st2, p2, rest));
                lemma_bases_push(sp.0, m, State::Object(sp.1.len() as usize));
                assert(st2.drop_last() =~= sp.0);
                assert(wf_stack(st2, p2.len() as nat));
                assert(p2.take(m as int) =~= path.take(m as int));
                lemma_path_prefix(st2, p2, rest, m);
                assert forall|i: int|
                    0 <= i < out.pairs.len() implies (#[trigger] out.pairs[i]).0.take(m as int)
                    == path.take(m as int) by {
                    assert(out.pairs[i] == run(st2, p2, rest).pairs[i]);
                }
            },
            Token::RBracket => {
                if stack.len() > 0 {
                    match stack.last() {
                        State::Array(idx, b) => {
                            assert(stack[stack.len() - 1] == stack.last());
                            assert(b >= m);
                            assert(b + 1 <= path.len());
                            let s1 = stack.drop_last();
                            lemma_bases_drop(stack, m);
                            assert(wf_stack(s1, b as nat));
                            let s2 = if s1.len() > 0 && (s1.last()
                                matches State::ExpectObjectValue) {
                                s1.drop_last()
                            } else {
                                s1
                            };
                            if s1.len() > 0 && (s1.last() matches State::ExpectObjectValue) {
                                lemma_bases_drop(s1, m);
                                assert(wf_stack(s1.drop_last(), b as nat));
                            }
                            let p2 = path.take(b as int);
                            assert(out == run(s2, p2, rest));
                            assert(p2.len() == b);
                            lemma_budget_step(toks);
                            assert(wf_stack(s2, b as nat));
                            assert(p2.take(m as int) =~= path.take(m as int));
                            lemma_path_prefix(s2, p2, rest, m);
                            assert forall|i: int|
                                0 <= i < out.pairs.len() implies (#[trigger] out.pairs[i]).0.take(
                                m as int,
                            ) == path.take(m as int) by {
                                assert(out.pairs[i] == run(s2, p2, rest).pairs[i]);
                            }
                        },
                        _ => {},
                    }
                }
            },
            Token::RBrace => {
                if stack.len() > 0 {
                    match stack.last() {
                        State::Object(b) => {
                            assert(stack[stack.len() - 1] == stack.last());
                            assert(b >= m);
                            assert(b + 1 <= path.len());
                            let s1 = stack.drop_last();
                            lemma_bases_drop(stack, m);
                            let p2 = path.take(b as int);
                            assert(out == run(s1, p2, rest));
                            lemma_budget_step(toks);
                            assert(wf_stack(s1, b as nat));
                            assert(p2.take(m as int) =~= path.take(m as int));
                            lemma_path_prefix(s1, p2, rest, m);
                            assert forall|i: int|
                                0 <= i < out.pairs.len() implies (#[trigger] out.pairs[i]).0.take(
                                m as int,
                            ) == path.take(m as int) by {
                                assert(out.pairs[i] == run(s1, p2, rest).pairs[i]);
                            }
                        },
                        _ => {},
                    }
                }
            },
            Token::Comma => {
                if stack.len() > 0 {
                    match stack.last() {
                        State::Array(idx, b) => {
                            assert(stack[stack.len() - 1] == stack.last());
                            assert(b >= m);
                            assert(b + 1 <= path.len());
                            let s1 = stack.drop_last();
                            lemma_bases_drop(stack, m);
                            let x = State::Array((idx + 1) as usize, b);
                            let st2 = s1.push(x);
                            lemma_bases_push(s1, m, x);
                            let p2 = path.take((b + 1) as int);
                            assert(out == run(st2, p2, rest));
                            lemma_budget_step(toks);
                            assert(st2.drop_last() =~= s1);
                            assert(wf_stack(st2, p2.len() as nat));
                            assert(p2.take(m as int) =~= path.take(m as int));
                            lemma_path_prefix(st2, p2, rest, m);
                            assert forall|i: int|
                                0 <= i < out.pairs.len() implies (#[trigger] out.pairs[i]).0.take(
                                m as int,
                            ) == path.take(m as int) by {
                                assert(out.pairs[i] == run(st2, p2, rest).pairs[i]);
                            }
                        },
                        State::Object(b) => {
                            assert(stack[stack.len() - 1] == stack.last());
                            assert(b >= m);
                            assert(b + 1 <= path.len());
                            let p2 = path.take((b + 1) as int);
                            assert(out == run(stack, p2, rest));
                            lemma_budget_step(toks);
                            assert(wf_stack(stack, p2.len() as nat));
                            assert(p2.take(m as int) =~= path.take(m as int));
                            lemma_path_prefix(stack, p2, rest, m);
                            assert forall|i: int|
                                0 <= i < out.pairs.len() implies (#[trigger] out.pairs[i]).0.take(
                                m as int,
                            ) == path.take(m as int) by {
                                assert(out.pairs[i] == run(stack, p2, rest).pairs[i]);
                            }
                        },
                        State::ExpectObjectValue => {},
                    }
                }
            },
            Token::Colon => {
                if stack.len() > 0 && (stack.last() matches State::ExpectObjectValue) {
                    assert(out == run(stack, path, rest));
                    lemma_budget_step(toks);
                    lemma_path_prefix(stack, path, rest, m);
                    assert forall|i: int|
                        0 <= i < out.pairs.len() implies (#[trigger] out.pairs[i]).0.take(m as int)
                        == path.take(m as int) by {
                        assert(out.pairs[i] == run(stack, path, rest).pairs[i]);
                    }
                }
            },
            Token::Value(v) => {
                if stack.len() == 0 {
                    let nxt = run(stack, path, rest);
                    assert(out.pairs == seq![(path, v@)] + nxt.pairs);
                    lemma_budget_step(toks);
                    lemma_path_prefix(stack, path, rest, m);
                    assert forall|i: int|
                        0 <= i < out.pairs.len() implies (#[trigger] out.pairs[i]).0.take(m as int)
                        == path.take(m as int) by {
                        if i == 0 {
                            assert(out.pairs[0].0 == path);
                        } else {
                            assert(out.pairs[i] == nxt.pairs[i - 1]);
                        }
                    }
                } else {
                    match stack.last() {
                        State::Array(idx, b) => {
                            let p1 = path + dec_chars(idx as nat);
                            let nxt = run(stack, p1, rest);
                            assert(out.pairs == seq![(p1, v@)] + nxt.pairs);
                            assert(p1.take(m as int) =~= path.take(m as int));
                            lemma_budget_step(toks);
                            lemma_dec_chars_len20(idx as nat);
                            lemma_wf_stack_widen(stack, path.len() as nat, p1.len() as nat);
                            lemma_path_prefix(stack, p1, rest, m);
                            assert forall|i: int|
                                0 <= i < out.pairs.len() implies (#[trigger] out.pairs[i]).0.take(
                                m as int,
                            ) == path.take(m as int) by {
                                if i == 0 {
                                    assert(out.pairs[0].0 == p1);
                                } else {
                                    assert(out.pairs[i] == nxt.pairs[i - 1]);
                                }
                            }
                        },
                        State::Object(b) => {
                            match v {
                                lexer::Value::Text(s) => {
                                    assert(stack[stack.len() - 1] == stack.last());
                                    assert(b >= m);
                                    assert(b + 1 <= path.len());
                                    let p1 = path.take((b + 1) as int) + s@;
                                    let st2 = stack.push(State::ExpectObjectValue);
                                    assert(out == run(st2, p1, rest));
                                    assert(p1.take(m as int) =~= path.take(m as int));
                                    lemma_budget_step(toks);
                                    assert(p1.len() + growth_budget(rest) <= usize::MAX);
                                    lemma_bases_push(stack, m, State::ExpectObjectValue);
                                    assert(st2.drop_last() =~= stack);
                                    assert(wf_stack(stack, (b + 1) as nat));
                                    lemma_wf_stack_widen(stack, (b + 1) as nat, p1.len() as nat);
                                    assert(wf_stack(st2, p1.len() as nat));
                                    lemma_path_prefix(st2, p1, rest, m);
                                    assert forall|i: int|
                                        0 <= i < out.pairs.len() implies (#[trigger] out.pairs[i]).0.take(
                                        m as int,
                                    ) == path.take(m as int) by {
                                        assert(out.pairs[i] == run(st2, p1, rest).pairs[i]);
                                    }
                                },
                                _ => {
                                    let nxt = run(stack, path, rest);
                                    assert(out.pairs == seq![(path, v@)] + nxt.pairs);
                                    lemma_budget_step(toks);
                                    lemma_path_prefix(stack, path, rest, m);
                                    assert forall|i: int|
                                        0 <= i < out.pairs.len() implies (#[trigger] out.pairs[i]).0.take(
                                        m as int,
                                    ) == path.take(m as int) by {
                                        if i == 0 {
                                            assert(out.pairs[0].0 == path);
                                        } else {
                                            assert(out.pairs[i] == nxt.pairs[i - 1]);
                                        }
                                    }
                                },
                            }
                        },
                        State::ExpectObjectValue => {
                            let s1 = stack.drop_last();
                            lemma_bases_drop(stack, m);
                            let nxt = run(s1, path, rest);
                            assert(out.pairs == seq![(path, v@)] + nxt.pairs);
                            lemma_budget_step(toks);
                            assert(wf_stack(s1, path.len() as nat));
                            lemma_path_prefix(s1, path, rest, m);
                            assert forall|i: int|
                                0 <= i < out.pairs.len() implies (#[trigger] out.pairs[i]).0.take(
                                m as int,
                            ) == path.take(m as int) by {
                                if i == 0 {
                                    assert(out.pairs[0].0 == path);
                                } else {
                                    assert(out.pairs[i] == nxt.pairs[i - 1]);
                                }
                            }
                        },
                    }
                }
            },
            Token::Illegal(_) => {},
        }
    }
}

/// Entering an element keeps the stack's anchors, the path's first `m`
/// characters, and well-formedness; the path never shrinks.
proof fn lemma_open_at(stack: Seq<State>, path: Seq<char>, m: nat)
    requires
        m <= path.len(),
        wf_stack(stack, path.len() as nat),
        bases_at_least(stack, m),
    ensures
        path.len() <= open_at(stack, path).1.len() <= path.len() + 20,
        open_at(stack, path).1.take(m as int) == path.take(m as int),
        bases_at_least(open_at(stack, path).0, m),
        wf_stack(open_at(stack, path).0, open_at(stack, path).1.len() as nat),
{
    let sp = open_at(stack, path);
    if stack.len() > 0 {
        match stack.last() {
            State::Array(idx, b) => {
                assert(sp.1.take(m as int) =~= path.take(m as int));
                lemma_dec_chars_len20(idx as nat);
                lemma_wf_stack_widen(stack, path.len() as nat, sp.1.len() as nat);
            },
            State::Object(b) => {
                assert(sp.1.take(m as int) =~= path.take(m as int));
            },
            State::ExpectObjectValue => {
                lemma_bases_drop(stack, m);
                assert(sp.1.take(m as int) =~= path.take(m as int));
            },
        }
    } else {
        assert(sp.1.take(m as int) =~= path.take(m as int));
    }
}

/// Law, applied at the root: every pair of a run started with an empty
/// stack carries the whole root name as a prefix of its name.
pub proof fn lemma_paths_begin_with_root(root: Seq<char>, toks: Seq<Token>)
    requires
        root.len() + growth_budget(toks) <= usize::MAX,
    ensures
        forall|i: int|
            0 <= i < run(Seq::<State>::empty(), root, toks).pairs.len() ==> (#[trigger] run(
                Seq::<State>::empty(),
                root,
                toks,
            ).pairs[i]).0.take(root.len() as int) == root,
{
    lemma_path_prefix(Seq::<State>::empty(), root, toks, root.len());
    assert(root.take(root.len() as int) =~= root);
}

} // verus!

