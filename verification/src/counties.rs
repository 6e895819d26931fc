//! A list of county names and the SQL `WHERE`-clause fragment that selects
//! them: `('a', 'b', ...)`.

use vstd::prelude::*;

verus! {

/// One county name, single-quoted.
pub open spec fn quoted(s: Seq<char>) -> Seq<char> {
    "'"@ + s + "'"@
}

/// The names quoted and joined with `", "`.
pub open spec fn comma_list(items: Seq<Seq<char>>) -> Seq<char>
    decreases items,
{
    if items.len() == 0 {
        Seq::empty()
    } else if items.len() == 1 {
        quoted(items[0])
    } else {
        comma_list(items.drop_last()) + ", "@ + quoted(items.last())
    }
}

/// The whole clause body: the joined list in parentheses.
pub open spec fn sql_clause(items: Seq<Seq<char>>) -> Seq<char> {
    "("@ + comma_list(items) + ")"@
}

/// A selection of counties by name.
pub struct Counties<'a> {
    pub clist: Vec<&'a str>,
}

impl<'a> Counties<'a> {
    pub fn new(list: Vec<&'a str>) -> (r: Counties<'a>)
        ensures
            r.clist == list,
    {
        Counties { clist: list }
    }

    /// Return a SQL "where" clause for this list of counties.
    pub fn sqlclause(&self) -> (r: String)
        ensures
            r@ == sql_clause(self.clist.deep_view()),
    {
        let ghost items = self.clist.deep_view();
        let mut s = String::from_str("(");
        proof {
            reveal_strlit("(");
            assert(s@ =~= "("@ + comma_list(items.take(0))) by {
                assert(items.take(0) =~= Seq::<Seq<char>>::empty());
            }
        }
        let mut i: usize = 0;
        while i < self.clist.len()
            invariant
                i <= self.clist.len(),
                items == self.clist.deep_view(),
                items.len() == self.clist@.len(),
                s@ =~= "("@ + comma_list(items.take(i as int)),
            decreases self.clist.len() - i,
        {
            if i > 0 {
                s.append(", ");
            }
            s.append("'");
            s.append(self.clist[i]);
            s.append("'");
            proof {
                assert(items.take(i + 1).drop_last() =~= items.take(i as int));
                assert(items.take(i + 1).last() == items[i as int]);
                assert(items[i as int] == self.clist@[i as int]@);
                if i == 0 {
                    assert(comma_list(items.take(1)) == quoted(items[0]));
                    assert(s@ =~= "("@ + comma_list(items.take(i + 1)));
                } else {
                    assert(comma_list(items.take(i + 1)) == comma_list(items.take(i as int))
                        + ", "@ + quoted(items[i as int]));
                    assert(s@ =~= "("@ + comma_list(items.take(i + 1)));
                }
            }
            i = i + 1;
        }
        s.append(")");
        proof {
            assert(items.take(items.len() as int) =~= items);
            assert(s@ =~= sql_clause(items));
        }
        s
    }
}

} // verus!
