//! The extension allow-list that admits files into the index.

use vstd::prelude::*;
use vstd::std_specs::iter::IteratorSpec;

verus! {

/// The lowercase form of a string: what `str::to_lowercase` returns for it.
pub uninterp spec fn lowercase(s: Seq<char>) -> Seq<char>;

/// `str::to_lowercase` maps each character to its Unicode lowercase form.
/// The result depends on the characters alone, so it carries the name
/// `lowercase`.
pub assume_specification[ str::to_lowercase ](s: &str) -> (lower: String)
    ensures
        lower@ == lowercase(s@),
;

/// The place of the last `.` in `name`, or -1 where it has none.
pub open spec fn last_dot(name: Seq<char>) -> int
    decreases name.len(),
{
    if name.len() == 0 {
        -1
    } else if name.last() == '.' {
        name.len() - 1
    } else {
        last_dot(name.drop_last())
    }
}

/// What follows the last `.` of `name`; nothing where it has no `.`.
pub open spec fn extension(name: Seq<char>) -> Option<Seq<char>> {
    if last_dot(name) < 0 {
        None
    } else {
        Some(name.subrange(last_dot(name) + 1, name.len() as int))
    }
}

/// Whether a file called `name` passes the allow-list `allowed`: it has an
/// extension, and the lowercase form of that extension is on the list.
pub open spec fn admitted(allowed: Set<Seq<char>>, name: Seq<char>) -> bool {
    match extension(name) {
        Some(ext) => allowed.contains(lowercase(ext)),
        None => false,
    }
}

/// The lowercase forms of the strings in `extensions`, as a set.
pub open spec fn lowered(extensions: Seq<String>) -> Set<Seq<char>> {
    Set::new(
        |e: Seq<char>|
            exists|i: int| 0 <= i < extensions.len() && lowercase(#[trigger] extensions[i]@) == e,
    )
}

/// A set of file extensions, held in lowercase. Its view is that set.
#[derive(Debug)]
pub struct ExtensionFilter {
    extensions: Vec<String>,
}

impl View for ExtensionFilter {
    type V = Set<Seq<char>>;

    closed spec fn view(&self) -> Set<Seq<char>> {
        Set::new(
            |e: Seq<char>|
                exists|i: int| 0 <= i < self.extensions.len() && (#[trigger] self.extensions[i])@ == e,
        )
    }
}

impl ExtensionFilter {
    /// The filter that admits the given extensions, whatever their letter
    /// case. Extensions are given without a leading dot.
    pub fn new(extensions: Vec<String>) -> (filter: ExtensionFilter)
        ensures
            filter@ == lowered(extensions@),
    {
        let mut lower: Vec<String> = Vec::new();
        let mut i: usize = 0;
        while i < extensions.len()
            invariant
                i <= extensions.len(),
                lower.len() == i,
                forall|k: int| 0 <= k < i ==> (#[trigger] lower[k])@ == lowercase(extensions[k]@),
            decreases extensions.len() - i,
        {
            lower.push(extensions[i].as_str().to_lowercase());
            i += 1;
        }
        let filter = ExtensionFilter { extensions: lower };
        proof {
            assert forall|e: Seq<char>| filter@.contains(e) == lowered(extensions@).contains(e) by {
                if filter@.contains(e) {
                    let k = choose|k: int| 0 <= k < lower.len() && (#[trigger] lower[k])@ == e;
                    assert(lowercase(extensions@[k]@) == e);
                }
                if lowered(extensions@).contains(e) {
                    let k = choose|k: int|
                        0 <= k < extensions.len() && lowercase(#[trigger] extensions@[k]@) == e;
                    assert(lower[k]@ == e);
                }
            }
        }
        filter
    }

    /// Whether the filter admits a file called `name`.
    pub fn admits(&self, name: &str) -> (yes: bool)
        ensures
            yes == admitted(self@, name@),
    {
        let n = name.unicode_len();
        let mut rest = name.chars();
        let mut i: usize = 0;
        let mut dot: Option<usize> = None;
        loop
            invariant
                rest.obeys_prophetic_iter_laws(),
                rest.decrease() is Some,
                n == name@.len(),
                i <= n,
                rest.remaining() == name@.skip(i as int),
                match dot {
                    Some(d) => d < i && d as int == last_dot(name@.take(i as int)),
                    None => last_dot(name@.take(i as int)) == -1,
                },
            ensures
                i == n,
                match dot {
                    Some(d) => d < n && d as int == last_dot(name@),
                    None => last_dot(name@) == -1,
                },
            decreases rest.decrease()->0,
        {
            match rest.next() {
                None => {
                    proof {
                        assert(name@.take(i as int) =~= name@);
                    }
                    break ;
                },
                Some(c) => {
                    proof {
                        assert(name@.take(i + 1).drop_last() =~= name@.take(i as int));
                    }
                    if c == '.' {
                        dot = Some(i);
                    }
                    i += 1;
                },
            }
        }
        match dot {
            None => false,
            Some(d) => {
                let ext = name.substring_char(d + 1, n).to_lowercase();
                let mut k: usize = 0;
                while k < self.extensions.len()
                    invariant
                        k <= self.extensions.len(),
                        d as int == last_dot(name@),
                        ext@ == lowercase(name@.subrange(d + 1, name@.len() as int)),
                        forall|j: int| 0 <= j < k ==> (#[trigger] self.extensions[j])@ != ext@,
                    decreases self.extensions.len() - k,
                {
                    if self.extensions[k] == ext {
                        return true;
                    }
                    k += 1;
                }
                false
            },
        }
    }
}

} // verus!
