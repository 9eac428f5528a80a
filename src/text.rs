use vstd::prelude::*;

verus! {

/// The separator between the segments of a flat key.
pub const SEP: char = '.';

/// Relies on `String::push`: the character is appended at the end.
pub assume_specification[ String::push ](s: &mut String, ch: char)
    ensures
        final(s)@ == old(s)@.push(ch),
;

/// The flat key of member `k` under the flat key `prefix`: root members have
/// no prefix, deeper ones are joined to their parent's key by the separator.
pub open spec fn join_key(prefix: Seq<char>, k: Seq<char>) -> Seq<char> {
    if prefix.len() == 0 {
        k
    } else {
        prefix + seq![SEP] + k
    }
}

/// Appends every character of `src` to `dst`.
pub fn append(dst: &mut String, src: &String)
    ensures
        final(dst)@ == old(dst)@ + src@,
{
    let n = src.as_str().unicode_len();
    let mut i: usize = 0;
    while i < n
        invariant
            n == src@.len(),
            i <= n,
            dst@ == old(dst)@ + src@.subrange(0, i as int),
        decreases n - i,
    {
        dst.push(src.as_str().get_char(i));
        i = i + 1;
        assert(dst@ =~= old(dst)@ + src@.subrange(0, i as int));
    }
    assert(src@.subrange(0, n as int) =~= src@);
}

/// Executable form of `join_key`.
pub fn join_key_exec(prefix: &String, k: &String) -> (r: String)
    ensures
        r@ == join_key(prefix@, k@),
{
    if prefix.as_str().unicode_len() == 0 {
        k.clone()
    } else {
        let mut r = prefix.clone();
        r.push(SEP);
        append(&mut r, k);
        r
    }
}

/// The segments of a flat key, cut at every separator. A key without
/// separator is a single segment; the empty key is one empty segment.
pub open spec fn split_key(s: Seq<char>) -> Seq<Seq<char>>
    decreases s.len(),
{
    if s.len() == 0 {
        seq![seq![]]
    } else {
        let r = split_key(s.drop_last());
        if s.last() == SEP {
            r.push(seq![])
        } else {
            r.update(r.len() - 1, r.last().push(s.last()))
        }
    }
}

pub proof fn lemma_split_nonempty(s: Seq<char>)
    ensures
        split_key(s).len() >= 1,
    decreases s.len(),
{
    if s.len() > 0 {
        lemma_split_nonempty(s.drop_last());
    }
}

/// The models of a list of strings.
pub open spec fn strings_view(v: Seq<String>) -> Seq<Seq<char>> {
    v.map_values(|x: String| x@)
}

/// Cuts a flat key into its segments.
pub fn split_key_exec(s: &String) -> (r: Vec<String>)
    ensures
        strings_view(r@) == split_key(s@),
{
    let n = s.as_str().unicode_len();
    let mut done: Vec<String> = Vec::new();
    let mut cur = String::new();
    let mut i: usize = 0;
    assert(strings_view(done@).push(cur@) =~= split_key(s@.subrange(0, 0)));
    while i < n
        invariant
            n == s@.len(),
            i <= n,
            strings_view(done@).push(cur@) == split_key(s@.subrange(0, i as int)),
        decreases n - i,
    {
        let c = s.as_str().get_char(i);
        let ghost pre = s@.subrange(0, i as int);
        let ghost next = s@.subrange(0, i + 1);
        assert(next.drop_last() =~= pre);
        proof {
            lemma_split_nonempty(pre);
        }
        if c == SEP {
            let ghost old_done = done@;
            done.push(cur);
            cur = String::new();
            assert(strings_view(done@) =~= strings_view(old_done).push(
                split_key(pre).last(),
            ));
            assert(strings_view(done@).push(cur@) =~= split_key(next));
        } else {
            cur.push(c);
            assert(strings_view(done@).push(cur@) =~= split_key(next));
        }
        i = i + 1;
    }
    assert(s@.subrange(0, n as int) =~= s@);
    let ghost old_done = done@;
    done.push(cur);
    assert(strings_view(done@) =~= strings_view(old_done).push(cur@));
    done
}

} // verus!
