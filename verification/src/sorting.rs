//! Display-order sorting of world lists: a chosen field, locale-
//! insensitive name comparison, stable tiebreakers (name, then
//! identifier), and an optional reversed direction. The result is a
//! permutation of the input, sorted by the stated order.

use vstd::prelude::*;

use crate::entities::WorldDisplayData;
use crate::entities::WorldDisplayV;
use crate::text::lex_cmp;
use crate::text::lemma_lex_cmp_flip;
use crate::text::lemma_lex_cmp_range;
use crate::text::lemma_lex_cmp_trans;
use crate::trusted::sort_key_of;
use vstd::relations::sorted_by;

verus! {

/// The sortable field names are distinct texts.
pub proof fn lemma_sort_fields_distinct()
    ensures
        "name"@ != "authorName"@,
        "name"@ != "visits"@,
        "name"@ != "favorites"@,
        "name"@ != "capacity"@,
        "name"@ != "dateAdded"@,
        "name"@ != "lastUpdated"@,
        "authorName"@ != "visits"@,
        "authorName"@ != "favorites"@,
        "authorName"@ != "capacity"@,
        "authorName"@ != "dateAdded"@,
        "authorName"@ != "lastUpdated"@,
        "visits"@ != "favorites"@,
        "visits"@ != "capacity"@,
        "visits"@ != "dateAdded"@,
        "visits"@ != "lastUpdated"@,
        "favorites"@ != "capacity"@,
        "favorites"@ != "dateAdded"@,
        "favorites"@ != "lastUpdated"@,
        "capacity"@ != "dateAdded"@,
        "capacity"@ != "lastUpdated"@,
        "dateAdded"@ != "lastUpdated"@,
{
    reveal_strlit("name");
    reveal_strlit("authorName");
    reveal_strlit("visits");
    reveal_strlit("favorites");
    reveal_strlit("capacity");
    reveal_strlit("dateAdded");
    reveal_strlit("lastUpdated");
    assert("name"@.len() == 4);
    assert("authorName"@.len() == 10);
    assert("visits"@.len() == 6);
    assert("favorites"@.len() == 9);
    assert("capacity"@.len() == 8);
    assert("dateAdded"@.len() == 9);
    assert("lastUpdated"@.len() == 11);
    assert("favorites"@[0] == 'f');
    assert("dateAdded"@[0] == 'd');
}

/// Three-way comparison of integers.
pub open spec fn cmp_int(x: int, y: int) -> int {
    if x < y {
        -1
    } else if x > y {
        1
    } else {
        0
    }
}

/// Comparison on the chosen field: names and authors by their
/// locale-insensitive sort key, counters numerically, date strings by
/// their bytes (their layouts order chronologically), an unknown field
/// comparing everything equal.
pub open spec fn spec_field_cmp(a: WorldDisplayV, b: WorldDisplayV, field: Seq<char>) -> int {
    if field == "name"@ {
        lex_cmp(sort_key_of(a.name), sort_key_of(b.name))
    } else if field == "authorName"@ {
        lex_cmp(sort_key_of(a.author_name), sort_key_of(b.author_name))
    } else if field == "visits"@ {
        cmp_int(a.visits as int, b.visits as int)
    } else if field == "favorites"@ {
        cmp_int(a.favorites as int, b.favorites as int)
    } else if field == "capacity"@ {
        cmp_int(a.capacity as int, b.capacity as int)
    } else if field == "dateAdded"@ {
        lex_cmp(vstd::utf8::encode_utf8(a.date_added), vstd::utf8::encode_utf8(b.date_added))
    } else if field == "lastUpdated"@ {
        lex_cmp(vstd::utf8::encode_utf8(a.last_updated), vstd::utf8::encode_utf8(b.last_updated))
    } else {
        0
    }
}

/// The field comparison with the stable tiebreakers behind it: equal
/// keys fall back to the locale-insensitive name, then to the raw
/// identifier.
pub open spec fn spec_tiebroken_cmp(a: WorldDisplayV, b: WorldDisplayV, field: Seq<char>) -> int {
    let c1 = spec_field_cmp(a, b, field);
    if c1 != 0 {
        c1
    } else {
        let c2 = lex_cmp(sort_key_of(a.name), sort_key_of(b.name));
        if c2 != 0 {
            c2
        } else {
            lex_cmp(vstd::utf8::encode_utf8(a.world_id), vstd::utf8::encode_utf8(b.world_id))
        }
    }
}

/// The display order: the tiebroken comparison, reversed whole when the
/// direction is descending.
pub open spec fn spec_display_order(
    a: WorldDisplayV,
    b: WorldDisplayV,
    field: Seq<char>,
    ascending: bool,
) -> int {
    if ascending {
        spec_tiebroken_cmp(a, b, field)
    } else {
        -spec_tiebroken_cmp(a, b, field)
    }
}

/// The "sorts no later than" relation the sort establishes.
pub open spec fn display_leq(field: Seq<char>, ascending: bool) -> spec_fn(
    WorldDisplayData,
    WorldDisplayData,
) -> bool {
    |a: WorldDisplayData, b: WorldDisplayData| spec_display_order(a@, b@, field, ascending) <= 0
}

/// The comparison flips sign when its arguments swap.
pub proof fn lemma_display_flip(a: WorldDisplayV, b: WorldDisplayV, field: Seq<char>)
    ensures
        spec_tiebroken_cmp(a, b, field) == -spec_tiebroken_cmp(b, a, field),
{
    lemma_sort_fields_distinct();
    lemma_lex_cmp_flip(sort_key_of(a.name), sort_key_of(b.name));
    lemma_lex_cmp_flip(sort_key_of(a.author_name), sort_key_of(b.author_name));
    lemma_lex_cmp_flip(vstd::utf8::encode_utf8(a.date_added), vstd::utf8::encode_utf8(b.date_added));
    lemma_lex_cmp_flip(
        vstd::utf8::encode_utf8(a.last_updated),
        vstd::utf8::encode_utf8(b.last_updated),
    );
    lemma_lex_cmp_flip(vstd::utf8::encode_utf8(a.world_id), vstd::utf8::encode_utf8(b.world_id));
}

/// The tiebroken comparison is transitive under "no later than".
pub proof fn lemma_display_trans(
    a: WorldDisplayV,
    b: WorldDisplayV,
    c: WorldDisplayV,
    field: Seq<char>,
)
    requires
        spec_tiebroken_cmp(a, b, field) <= 0,
        spec_tiebroken_cmp(b, c, field) <= 0,
    ensures
        spec_tiebroken_cmp(a, c, field) <= 0,
{
    lemma_sort_fields_distinct();
    let f_ab = spec_field_cmp(a, b, field);
    let f_bc = spec_field_cmp(b, c, field);
    let f_ac = spec_field_cmp(a, c, field);
    assert(f_ab <= 0);
    assert(f_bc <= 0);
    lemma_field_trans_all(a, b, c, field);
    if f_ac < 0 {
        // The field decides.
    } else {
        // Equal on the field all around, else a contradiction arises.
        assert(f_ab == 0) by {
            if f_ab < 0 {
                lemma_field_flip_all(a, c, field);
                lemma_field_trans_all(b, c, a, field);
                lemma_field_flip_all(a, b, field);
            }
        }
        assert(f_bc == 0) by {
            if f_bc < 0 {
                lemma_field_flip_all(a, c, field);
                lemma_field_trans_all(c, a, b, field);
                lemma_field_flip_all(b, c, field);
            }
        }
        let n_ab = lex_cmp(sort_key_of(a.name), sort_key_of(b.name));
        let n_bc = lex_cmp(sort_key_of(b.name), sort_key_of(c.name));
        let n_ac = lex_cmp(sort_key_of(a.name), sort_key_of(c.name));
        assert(n_ab <= 0) by {
            crate::text::lemma_lex_cmp_range(sort_key_of(a.name), sort_key_of(b.name));
        }
        assert(n_bc <= 0) by {
            crate::text::lemma_lex_cmp_range(sort_key_of(b.name), sort_key_of(c.name));
        }
        lemma_lex_cmp_trans(sort_key_of(a.name), sort_key_of(b.name), sort_key_of(c.name));
        if n_ac < 0 {
            // The name tiebreaker decides.
        } else {
            assert(n_ab == 0) by {
                if n_ab < 0 {
                    lemma_lex_cmp_flip(sort_key_of(a.name), sort_key_of(c.name));
                    lemma_lex_cmp_trans(
                        sort_key_of(b.name),
                        sort_key_of(c.name),
                        sort_key_of(a.name),
                    );
                    lemma_lex_cmp_flip(sort_key_of(a.name), sort_key_of(b.name));
                }
            }
            assert(n_bc == 0) by {
                if n_bc < 0 {
                    lemma_lex_cmp_flip(sort_key_of(a.name), sort_key_of(c.name));
                    lemma_lex_cmp_trans(
                        sort_key_of(c.name),
                        sort_key_of(a.name),
                        sort_key_of(b.name),
                    );
                    lemma_lex_cmp_flip(sort_key_of(b.name), sort_key_of(c.name));
                }
            }
            lemma_lex_cmp_trans(
                vstd::utf8::encode_utf8(a.world_id),
                vstd::utf8::encode_utf8(b.world_id),
                vstd::utf8::encode_utf8(c.world_id),
            );
        }
    }
}

/// Field-level transitivity of "no later than", every field alike.
proof fn lemma_field_trans_all(a: WorldDisplayV, b: WorldDisplayV, c: WorldDisplayV, field: Seq<char>)
    requires
        spec_field_cmp(a, b, field) <= 0,
        spec_field_cmp(b, c, field) <= 0,
    ensures
        spec_field_cmp(a, c, field) <= 0,
{
    lemma_sort_fields_distinct();
    if field == "name"@ {
        lemma_lex_cmp_trans(sort_key_of(a.name), sort_key_of(b.name), sort_key_of(c.name));
    } else if field == "authorName"@ {
        lemma_lex_cmp_trans(
            sort_key_of(a.author_name),
            sort_key_of(b.author_name),
            sort_key_of(c.author_name),
        );
    } else if field == "dateAdded"@ {
        assert(field != "visits"@ && field != "favorites"@ && field != "capacity"@);
        assert(spec_field_cmp(a, b, field) == lex_cmp(
            vstd::utf8::encode_utf8(a.date_added),
            vstd::utf8::encode_utf8(b.date_added),
        ));
        lemma_lex_cmp_trans(
            vstd::utf8::encode_utf8(a.date_added),
            vstd::utf8::encode_utf8(b.date_added),
            vstd::utf8::encode_utf8(c.date_added),
        );
    } else if field == "lastUpdated"@ {
        assert(field != "visits"@ && field != "favorites"@ && field != "capacity"@ && field
            != "dateAdded"@);
        assert(spec_field_cmp(a, b, field) == lex_cmp(
            vstd::utf8::encode_utf8(a.last_updated),
            vstd::utf8::encode_utf8(b.last_updated),
        ));
        lemma_lex_cmp_trans(
            vstd::utf8::encode_utf8(a.last_updated),
            vstd::utf8::encode_utf8(b.last_updated),
            vstd::utf8::encode_utf8(c.last_updated),
        );
    }
}

/// Field-level sign flip, every field alike.
proof fn lemma_field_flip_all(a: WorldDisplayV, b: WorldDisplayV, field: Seq<char>)
    ensures
        spec_field_cmp(a, b, field) == -spec_field_cmp(b, a, field),
{
    lemma_sort_fields_distinct();
    lemma_lex_cmp_flip(sort_key_of(a.name), sort_key_of(b.name));
    lemma_lex_cmp_flip(sort_key_of(a.author_name), sort_key_of(b.author_name));
    lemma_lex_cmp_flip(vstd::utf8::encode_utf8(a.date_added), vstd::utf8::encode_utf8(b.date_added));
    lemma_lex_cmp_flip(
        vstd::utf8::encode_utf8(a.last_updated),
        vstd::utf8::encode_utf8(b.last_updated),
    );
}

/// The display order is total and transitive: what an insertion sort
/// needs of its relation.
pub proof fn lemma_display_leq_properties(field: Seq<char>, ascending: bool)
    ensures
        forall|a: WorldDisplayData, b: WorldDisplayData|
            #[trigger] display_leq(field, ascending)(a, b) || #[trigger] display_leq(
                field,
                ascending,
            )(b, a),
        forall|a: WorldDisplayData, b: WorldDisplayData, c: WorldDisplayData|
            #[trigger] display_leq(field, ascending)(a, b) && #[trigger] display_leq(
                field,
                ascending,
            )(b, c) ==> display_leq(field, ascending)(a, c),
{
    assert forall|a: WorldDisplayData, b: WorldDisplayData| #[trigger] display_leq(
        field,
        ascending,
    )(a, b) || #[trigger] display_leq(field, ascending)(b, a) by {
        lemma_display_flip(a@, b@, field);
    }
    assert forall|a: WorldDisplayData, b: WorldDisplayData, c: WorldDisplayData|
        #[trigger] display_leq(field, ascending)(a, b) && #[trigger] display_leq(
            field,
            ascending,
        )(b, c) implies display_leq(field, ascending)(a, c) by {
        if ascending {
            lemma_display_trans(a@, b@, c@, field);
        } else {
            lemma_display_flip(a@, b@, field);
            lemma_display_flip(b@, c@, field);
            lemma_display_flip(a@, c@, field);
            lemma_display_trans(c@, b@, a@, field);
        }
    }
}

/// Inserting an element turns a list's multiset into the multiset plus
/// that element.
proof fn lemma_insert_multiset<T>(s: Seq<T>, p: int, x: T)
    requires
        0 <= p <= s.len(),
    ensures
        s.insert(p, x).to_multiset() =~= s.to_multiset().insert(x),
{
    broadcast use vstd::multiset::group_multiset_axioms;

    let a = s.subrange(0, p);
    let b = s.subrange(p, s.len() as int);
    assert(s =~= a + b);
    assert(s.insert(p, x) =~= a.push(x) + b);
    vstd::seq_lib::lemma_multiset_commutative(a.push(x), b);
    vstd::seq_lib::lemma_multiset_commutative(a, b);
    a.to_multiset_ensures();
    assert((a.to_multiset().insert(x)).add(b.to_multiset()) =~= (a.to_multiset().add(
        b.to_multiset(),
    )).insert(x));
}

/// Sorting operations over display lists.
pub struct SortingService;

impl SortingService {
    /// The locale-insensitive sort key of a text; see
    /// [`crate::trusted::sort_key`].
    pub fn normalize_for_sorting(value: &str) -> (r: Vec<u8>)
        ensures
            r@ == sort_key_of(value@),
    {
        crate::trusted::sort_key(value)
    }

    /// Compares two texts by their locale-insensitive sort keys.
    pub fn cmp_case_insensitive(left: &str, right: &str) -> (r: i32)
        ensures
            r == lex_cmp(sort_key_of(left@), sort_key_of(right@)),
    {
        let l = crate::trusted::sort_key(left);
        let rr = crate::trusted::sort_key(right);
        crate::text::lex_cmp_bytes(l.as_slice(), rr.as_slice())
    }

    /// Keeps or reverses a comparison by direction.
    pub fn apply_direction(ordering: i32, ascending: bool) -> (r: i32)
        requires
            -1 <= ordering <= 1,
        ensures
            ascending ==> r == ordering,
            !ascending ==> r == -ordering,
    {
        if ascending {
            ordering
        } else {
            -ordering
        }
    }

    /// Compares two display records on the chosen field; see
    /// [`spec_field_cmp`].
    pub fn sort_field_ordering_for_display(
        a: &WorldDisplayData,
        b: &WorldDisplayData,
        sort_field: &str,
    ) -> (r: i32)
        ensures
            r == spec_field_cmp(a@, b@, sort_field@),
            -1 <= r <= 1,
    {
    proof {
        lemma_sort_fields_distinct();
    }
        let field = sort_field.to_owned();
        let r: i32 = if field == String::from_str("name") {
            Self::cmp_case_insensitive(a.name.as_str(), b.name.as_str())
        } else if field == String::from_str("authorName") {
            Self::cmp_case_insensitive(a.author_name.as_str(), b.author_name.as_str())
        } else if field == String::from_str("visits") {
            if a.visits < b.visits {
                -1
            } else if a.visits > b.visits {
                1
            } else {
                0
            }
        } else if field == String::from_str("favorites") {
            if a.favorites < b.favorites {
                -1
            } else if a.favorites > b.favorites {
                1
            } else {
                0
            }
        } else if field == String::from_str("capacity") {
            if a.capacity < b.capacity {
                -1
            } else if a.capacity > b.capacity {
                1
            } else {
                0
            }
        } else if field == String::from_str("dateAdded") {
            crate::text::lex_cmp_bytes(a.date_added.as_str().as_bytes(), b.date_added.as_str().as_bytes())
        } else if field == String::from_str("lastUpdated") {
            crate::text::lex_cmp_bytes(
                a.last_updated.as_str().as_bytes(),
                b.last_updated.as_str().as_bytes(),
            )
        } else {
            0
        };
        proof {
            lemma_lex_cmp_range(sort_key_of(a@.name), sort_key_of(b@.name));
            lemma_lex_cmp_range(sort_key_of(a@.author_name), sort_key_of(b@.author_name));
            lemma_lex_cmp_range(
                vstd::utf8::encode_utf8(a@.date_added),
                vstd::utf8::encode_utf8(b@.date_added),
            );
            lemma_lex_cmp_range(
                vstd::utf8::encode_utf8(a@.last_updated),
                vstd::utf8::encode_utf8(b@.last_updated),
            );
        }
        r
    }

    /// Applies the stable tiebreakers behind a field comparison; see
    /// [`spec_tiebroken_cmp`].
    pub fn apply_stable_tiebreakers_display(
        a: &WorldDisplayData,
        b: &WorldDisplayData,
        ordering: i32,
    ) -> (r: i32)
        requires
            -1 <= ordering <= 1,
        ensures
            ordering != 0 ==> r == ordering,
            ordering == 0 ==> r == (if lex_cmp(sort_key_of(a@.name), sort_key_of(b@.name)) != 0 {
                lex_cmp(sort_key_of(a@.name), sort_key_of(b@.name))
            } else {
                lex_cmp(vstd::utf8::encode_utf8(a@.world_id), vstd::utf8::encode_utf8(b@.world_id))
            }),
            -1 <= r <= 1,
    {
        if ordering != 0 {
            return ordering;
        }
        let by_name = Self::cmp_case_insensitive(a.name.as_str(), b.name.as_str());
        proof {
            lemma_lex_cmp_range(sort_key_of(a@.name), sort_key_of(b@.name));
        }
        if by_name != 0 {
            return by_name;
        }
        let r = crate::text::lex_cmp_bytes(a.world_id.as_str().as_bytes(), b.world_id.as_str().as_bytes());
        proof {
            lemma_lex_cmp_range(
                vstd::utf8::encode_utf8(a@.world_id),
                vstd::utf8::encode_utf8(b@.world_id),
            );
        }
        r
    }

    /// Whether `a` sorts no later than `b` under the given field and
    /// direction.
    fn le(a: &WorldDisplayData, b: &WorldDisplayData, sort_field: &str, ascending: bool) -> (r:
        bool)
        ensures
            r == display_leq(sort_field@, ascending)(*a, *b),
    {
        let field_cmp = Self::sort_field_ordering_for_display(a, b, sort_field);
        let tiebroken = Self::apply_stable_tiebreakers_display(a, b, field_cmp);
        let ordered = Self::apply_direction(tiebroken, ascending);
        ordered <= 0
    }

    /// Sorts a display list by the chosen field and direction: the result
    /// is a permutation of the input, ordered by the field with the name
    /// and identifier as stable tiebreakers (see [`spec_display_order`]).
    pub fn sort_world_display_data(
        worlds: Vec<WorldDisplayData>,
        sort_field: &str,
        sort_direction: &str,
    ) -> (r: Vec<WorldDisplayData>)
        ensures
            r@.to_multiset() == worlds@.to_multiset(),
            sorted_by(r@, display_leq(sort_field@, sort_direction@ == "asc"@)),
    {
        let ascending = sort_direction.to_owned() == String::from_str("asc");
        let ghost leq = display_leq(sort_field@, ascending);
        proof {
            lemma_display_leq_properties(sort_field@, ascending);
        }
        let mut rest = worlds;
        let mut out: Vec<WorldDisplayData> = Vec::new();
        proof {
            out@.to_multiset_ensures();
            rest@.to_multiset_ensures();
            assert(out@.to_multiset().add(rest@.to_multiset()) =~= rest@.to_multiset()) by {
                broadcast use vstd::multiset::group_multiset_axioms;

                assert(out@.to_multiset().len() == 0);
            }
        }
        while rest.len() > 0
            invariant
                leq == display_leq(sort_field@, ascending),
                sorted_by(out@, leq),
                out@.to_multiset().add(rest@.to_multiset()) == worlds@.to_multiset(),
                forall|a: WorldDisplayData, b: WorldDisplayData|
                    #[trigger] leq(a, b) || #[trigger] leq(b, a),
                forall|a: WorldDisplayData, b: WorldDisplayData, c: WorldDisplayData|
                    #[trigger] leq(a, b) && #[trigger] leq(b, c) ==> leq(a, c),
            decreases rest@.len(),
        {
            let ghost pre_rest = rest@;
            let ghost pre_out = out@;
            let x = rest.remove(0);
            // Find the first position whose element sorts after `x`.
            let mut p: usize = 0;
            while p < out.len() && Self::le(&out[p], &x, sort_field, ascending)
                invariant
                    leq == display_leq(sort_field@, ascending),
                    0 <= p <= out@.len(),
                    forall|k: int| 0 <= k < p ==> #[trigger] leq(out@[k], x),
                decreases out@.len() - p,
            {
                p = p + 1;
            }
            proof {
                assert(p < out@.len() ==> !leq(out@[p as int], x));
            }
            let ghost mid_out = out@;
            out.insert(p, x);
            proof {
                // The multiset bookkeeping.
                broadcast use vstd::multiset::group_multiset_axioms;

                lemma_insert_multiset(mid_out, p as int, x);
                pre_rest.to_multiset_ensures();
                assert(rest@ =~= pre_rest.remove(0));
                assert(rest@.to_multiset() =~= pre_rest.to_multiset().remove(x));
                assert(pre_rest.to_multiset().contains(x)) by {
                    assert(pre_rest[0] == x);
                    assert(pre_rest.contains(x));
                }
                assert(out@.to_multiset().add(rest@.to_multiset()) =~= worlds@.to_multiset());
                // The sortedness bookkeeping.
                mid_out.insert_ensures(p as int, x);
                assert forall|i: int, j: int| 0 <= i <= j < out@.len() implies leq(
                    #[trigger] out@[i],
                    #[trigger] out@[j],
                ) by {
                    if i == j {
                        assert(leq(out@[i], out@[i])) by {
                            if !leq(out@[i], out@[i]) {
                            }
                        }
                    } else if j < p as int {
                        assert(out@[i] == mid_out[i] && out@[j] == mid_out[j]);
                        assert(vstd::relations::sorted_by(mid_out, leq));
                    } else if i > p as int {
                        assert(out@[i] == mid_out[i - 1] && out@[j] == mid_out[j - 1]);
                    } else if i == p as int && j == p as int {
                    } else if i == p as int {
                        // x against a later element: that element sorts
                        // after x.
                        assert(out@[j] == mid_out[j - 1]);
                        if p < mid_out.len() {
                            assert(!leq(mid_out[p as int], x));
                            assert(leq(x, mid_out[p as int]));
                            assert(leq(mid_out[p as int], mid_out[j - 1]) || p as int == j - 1);
                        }
                    } else if j == p as int {
                        // An earlier element against x: the scan passed it.
                        assert(out@[i] == mid_out[i]);
                        assert(leq(mid_out[i], x));
                    } else {
                        assert(out@[i] == mid_out[i] && out@[j] == mid_out[j - 1]);
                        if i < p as int && j > p as int {
                            assert(leq(mid_out[i], x));
                        }
                    }
                }
            }
        }
        proof {
            broadcast use vstd::multiset::group_multiset_axioms;

            rest@.to_multiset_ensures();
            assert(rest@.to_multiset().len() == 0);
            assert(out@.to_multiset().add(rest@.to_multiset()) =~= out@.to_multiset());
        }
        out
    }
}

} // verus!
