//! Sources of tokens that the JSON writer pulls from.

use vstd::prelude::*;

use crate::token::{item_view, AcfToken, ItemView, ParseError};

verus! {

/// How one pull changes a source whose pending items were `before`: the
/// first of them is handed out, or `None` once none is left.
pub open spec fn pulled(
    before: Seq<ItemView>,
    after: Seq<ItemView>,
    r: Option<Result<AcfToken, ParseError>>,
) -> bool {
    if before.len() == 0 {
        r is None && after == before
    } else {
        r matches Some(x) && item_view(x) == before[0] && after == before.drop_first()
    }
}

/// A finite stream of tokens and errors, pulled one at a time.
pub trait TokenSource {
    /// The items that the source has still to hand out, in order.
    spec fn pending(&self) -> Seq<ItemView>;

    spec fn valid(&self) -> bool;

    /// A source never holds more items than a `usize` can count.
    proof fn lemma_pending_bound(&self)
        requires
            self.valid(),
        ensures
            self.pending().len() <= usize::MAX,
    ;

    /// Hands out the next item, or `None` once the source is exhausted.
    fn next(&mut self) -> (r: Option<Result<AcfToken, ParseError>>)
        requires
            old(self).valid(),
        ensures
            final(self).valid(),
            pulled(old(self).pending(), final(self).pending(), r),
    ;
}

/// A source that hands out a list of items held in memory.
pub struct TokenList {
    /// The items still to hand out, the next one last.
    rev: Vec<Result<AcfToken, ParseError>>,
}

impl TokenList {
    /// A source that hands out `items` from the first to the last.
    pub fn new(items: Vec<Result<AcfToken, ParseError>>) -> (r: Self)
        ensures
            r.valid(),
            r.pending() == items@.map_values(|x: Result<AcfToken, ParseError>| item_view(x)),
    {
        let mut items = items;
        let ghost all = items@;
        // the length of a `Vec` fits in a `usize`
        let _len = items.len();
        let mut rev: Vec<Result<AcfToken, ParseError>> = Vec::new();
        while items.len() > 0
            invariant
                items@.len() + rev@.len() == all.len(),
                all.len() <= usize::MAX,
                items@ == all.take(items@.len() as int),
                forall|i: int|
                    0 <= i < rev@.len() ==> #[trigger] rev@[i] == all[all.len() - 1 - i],
            decreases items@.len(),
        {
            let x = items.pop().unwrap();
            rev.push(x);
        }
        let r = TokenList { rev };
        assert(r.pending() =~= all.map_values(|x: Result<AcfToken, ParseError>| item_view(x)));
        r
    }
}

impl TokenSource for TokenList {
    closed spec fn pending(&self) -> Seq<ItemView> {
        Seq::new(self.rev@.len(), |i: int| item_view(self.rev@[self.rev@.len() - 1 - i]))
    }

    closed spec fn valid(&self) -> bool {
        self.rev@.len() <= usize::MAX
    }

    proof fn lemma_pending_bound(&self) {
    }

    fn next(&mut self) -> (r: Option<Result<AcfToken, ParseError>>) {
        let r = self.rev.pop();
        assert(final(self).pending() =~= old(self).pending().drop_first() || old(
            self,
        ).pending().len() == 0);
        r
    }
}

} // verus!
