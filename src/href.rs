//! Counting the parts of a link path.
use vstd::prelude::*;

verus! {

/// How many times `c` occurs in `s`.
pub open spec fn count_char(s: Seq<char>, c: char) -> nat
    decreases s.len(),
{
    if s.len() == 0 {
        0
    } else {
        count_char(s.drop_last(), c) + if s.last() == c {
            1nat
        } else {
            0nat
        }
    }
}

/// The number of items in the path `s`: one per `/`, and one more where the
/// path does not start with `/`. So `/index.html` has 1, `/blog/` has 2,
/// `../x` has 2.
pub open spec fn path_items_of(s: Seq<char>) -> nat {
    if s.len() > 0 && s[0] == '/' {
        count_char(s, '/')
    } else {
        count_char(s, '/') + 1
    }
}

/// The number of `..` in `s`, counted from the left without overlap.
pub open spec fn parent_accessors_of(s: Seq<char>) -> nat
    decreases s.len(),
{
    if s.len() < 2 {
        0
    } else if s[0] == '.' && s[1] == '.' {
        1 + parent_accessors_of(s.subrange(2, s.len() as int))
    } else {
        parent_accessors_of(s.drop_first())
    }
}

/// A path has at least one item.
pub proof fn lemma_path_items_positive(s: Seq<char>)
    ensures
        path_items_of(s) >= 1,
{
    if s.len() > 0 && s[0] == '/' {
        lemma_count_first(s, '/');
    }
}

proof fn lemma_count_first(s: Seq<char>, c: char)
    requires
        s.len() > 0,
        s[0] == c,
    ensures
        count_char(s, c) >= 1,
    decreases s.len(),
{
    if s.len() > 1 {
        lemma_count_first(s.drop_last(), c);
    }
}

/// A link path.
pub trait Href {
    /// The characters of the path.
    spec fn href(&self) -> Seq<char>;

    /// The number of items in the path.
    fn path_items(&self) -> (r: usize)
        ensures
            r == path_items_of(self.href()),
    ;

    /// The number of parent accessors, `..`, in the path.
    fn parent_accessors(&self) -> (r: usize)
        ensures
            r == parent_accessors_of(self.href()),
    ;
}

impl Href for String {
    open spec fn href(&self) -> Seq<char> {
        self@
    }

    fn path_items(&self) -> (r: usize) {
        let s = self.as_str();
        let n = s.unicode_len();
        let mut count: usize = 0;
        let mut i: usize = 0;
        assert(s@.take(0) =~= Seq::<char>::empty());
        while i < n
            invariant
                n == s@.len(),
                s@ == self@,
                i <= n,
                count == count_char(s@.take(i as int), '/'),
                count <= i,
                i > 0 && s@[0] != '/' ==> count < i,
            decreases n - i,
        {
            assert(s@.take(i + 1).drop_last() =~= s@.take(i as int));
            if s.get_char(i) == '/' {
                count = count + 1;
            }
            i = i + 1;
        }
        assert(s@.take(i as int) =~= s@);
        if n > 0 && s.get_char(0) == '/' {
            count
        } else {
            count + 1
        }
    }

    fn parent_accessors(&self) -> (r: usize) {
        let s = self.as_str();
        let n = s.unicode_len();
        let mut count: usize = 0;
        let mut i: usize = 0;
        assert(s@.subrange(0, n as int) =~= s@);
        while i < n
            invariant
                n == s@.len(),
                s@ == self@,
                i <= n,
                count <= i,
                count + parent_accessors_of(s@.subrange(i as int, n as int)) == parent_accessors_of(
                    s@,
                ),
            decreases n - i,
        {
            let rest = Ghost(s@.subrange(i as int, n as int));
            if i + 1 < n && s.get_char(i) == '.' && s.get_char(i + 1) == '.' {
                assert(rest@.subrange(2, rest@.len() as int) =~= s@.subrange(i + 2, n as int));
                count = count + 1;
                i = i + 2;
            } else {
                assert(rest@.drop_first() =~= s@.subrange(i + 1, n as int));
                i = i + 1;
            }
        }
        count
    }
}

} // verus!
