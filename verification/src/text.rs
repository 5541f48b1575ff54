//! A solution written out route by route, one line per route:
//! `Route k: 0 - customer ( load ) - ... - 0`.
use vstd::prelude::*;
use vstd::string::StringExecFns;
use crate::instance::Node;
use crate::solution::{AlkaidSolution, NodeData, cust_of, load_of, pred_of, succ_of};

verus! {

/// The decimal digit `d` as a character.
pub open spec fn digit_char(d: int) -> char {
    if d == 0 {
        '0'
    } else if d == 1 {
        '1'
    } else if d == 2 {
        '2'
    } else if d == 3 {
        '3'
    } else if d == 4 {
        '4'
    } else if d == 5 {
        '5'
    } else if d == 6 {
        '6'
    } else if d == 7 {
        '7'
    } else if d == 8 {
        '8'
    } else {
        '9'
    }
}

/// Decimal digits of `n`, most significant first.
pub open spec fn decimal(n: nat) -> Seq<char>
    decreases n,
{
    if n < 10 {
        seq![digit_char(n as int)]
    } else {
        decimal(n / 10) + seq![digit_char((n % 10) as int)]
    }
}

/// `x` in decimal, with a leading `-` when it is negative.
pub open spec fn int_text(x: int) -> Seq<char> {
    if x < 0 {
        seq!['-'] + decimal((-x) as nat)
    } else {
        decimal(x as nat)
    }
}

/// ` - customer ( load )` for each slot of the walk from `cur`, up to the
/// depot or for at most `fuel` slots.
pub open spec fn stops_text(d: Seq<NodeData>, cur: int, fuel: nat) -> Seq<char>
    decreases fuel,
{
    if fuel == 0 || cur == 0 {
        Seq::empty()
    } else {
        seq![' ', '-', ' '] + int_text(cust_of(d, cur)) + seq![' ', '(', ' '] + int_text(load_of(d, cur)) + seq![' ', ')']
            + stops_text(d, succ_of(d, cur), (fuel - 1) as nat)
    }
}

/// The line of the `k`-th route, which starts at `head`.
pub open spec fn route_text(d: Seq<NodeData>, head: int, k: nat) -> Seq<char> {
    seq!['R', 'o', 'u', 't', 'e', ' '] + decimal(k) + seq![':', ' ', '0'] + stops_text(d, head, d.len()) + seq![
        ' ',
        '-',
        ' ',
        '0',
        '\n',
    ]
}

/// The lines of the routes that start at the slots `used[i..]` without a
/// predecessor, numbered from `k + 1`.
pub open spec fn routes_text(d: Seq<NodeData>, used: Seq<Node>, i: int, k: nat) -> Seq<char>
    decreases used.len() - i,
{
    if i < 0 || i >= used.len() {
        Seq::empty()
    } else if pred_of(d, used[i] as int) == 0 {
        route_text(d, used[i] as int, k + 1) + routes_text(d, used, i + 1, k + 1)
    } else {
        routes_text(d, used, i + 1, k)
    }
}

/// `{ "customer": c, "quantity": q }`.
pub open spec fn json_item(c: int, q: int) -> Seq<char> {
    "{ \"customer\": "@ + int_text(c) + ", \"quantity\": "@ + int_text(q) + " }"@
}

/// `, ` and the item of each slot of the walk from `cur`, up to the depot
/// or for at most `fuel` slots.
pub open spec fn json_stops(d: Seq<NodeData>, cur: int, fuel: nat) -> Seq<char>
    decreases fuel,
{
    if fuel == 0 || cur == 0 {
        Seq::empty()
    } else {
        ", "@ + json_item(cust_of(d, cur), load_of(d, cur)) + json_stops(d, succ_of(d, cur), (fuel - 1) as nat)
    }
}

/// The array of the route that starts at `head`, with the depot at both
/// ends.
pub open spec fn json_route(d: Seq<NodeData>, head: int) -> Seq<char> {
    "["@ + json_item(0, 0) + json_stops(d, head, d.len()) + ", "@ + json_item(0, 0) + "]"@
}

/// The arrays of the routes that start at the slots `used[i..]` without a
/// predecessor, separated by `,` and a line break (none before the first
/// when `first`).
pub open spec fn json_routes(d: Seq<NodeData>, used: Seq<Node>, i: int, first: bool) -> Seq<char>
    decreases used.len() - i,
{
    if i < 0 || i >= used.len() {
        Seq::empty()
    } else if pred_of(d, used[i] as int) == 0 {
        (if first {
            Seq::empty()
        } else {
            ",\n"@
        }) + json_route(d, used[i] as int) + json_routes(d, used, i + 1, false)
    } else {
        json_routes(d, used, i + 1, first)
    }
}

/// The digit `d` as a one-character string.
fn digit_str(d: u64) -> (r: &'static str)
    requires
        d < 10,
    ensures
        r@ == seq![digit_char(d as int)],
{
    if d == 0 {
        proof {
            reveal_strlit("0");
        }
        "0"
    } else if d == 1 {
        proof {
            reveal_strlit("1");
        }
        "1"
    } else if d == 2 {
        proof {
            reveal_strlit("2");
        }
        "2"
    } else if d == 3 {
        proof {
            reveal_strlit("3");
        }
        "3"
    } else if d == 4 {
        proof {
            reveal_strlit("4");
        }
        "4"
    } else if d == 5 {
        proof {
            reveal_strlit("5");
        }
        "5"
    } else if d == 6 {
        proof {
            reveal_strlit("6");
        }
        "6"
    } else if d == 7 {
        proof {
            reveal_strlit("7");
        }
        "7"
    } else if d == 8 {
        proof {
            reveal_strlit("8");
        }
        "8"
    } else {
        proof {
            reveal_strlit("9");
        }
        "9"
    }
}

/// Appends `n` in decimal.
fn push_decimal(s: &mut String, n: u64)
    ensures
        final(s)@ == old(s)@ + decimal(n as nat),
    decreases n,
{
    if n >= 10 {
        push_decimal(s, n / 10);
    }
    s.append(digit_str(n % 10));
    proof {
        assert(old(s)@ + decimal(n as nat) =~= final(s)@) by {
            if n >= 10 {
                assert(decimal(n as nat) == decimal((n / 10) as nat) + seq![digit_char((n % 10) as int)]);
            }
        }
    }
}

/// Appends `x` in decimal, with a leading `-` when it is negative.
fn push_int(s: &mut String, x: i32)
    ensures
        final(s)@ == old(s)@ + int_text(x as int),
{
    if x < 0 {
        proof {
            reveal_strlit("-");
        }
        s.append("-");
        let m: i64 = -(x as i64);
        push_decimal(s, m as u64);
        assert(final(s)@ =~= old(s)@ + int_text(x as int));
    } else {
        push_decimal(s, x as u64);
    }
}

impl AlkaidSolution {
    /// Appends the line of the `k`-th route, which starts at `head`.
    fn push_route(&self, s: &mut String, head: Node, k: u64)
        requires
            self.wf(),
            self.is_slot(head as int),
        ensures
            final(s)@ == old(s)@ + route_text(self.nodes(), head as int, k as nat),
    {
        let ghost d = self.nodes();
        proof {
            reveal_strlit("Route ");
            reveal_strlit(": 0");
            reveal_strlit(" - ");
            reveal_strlit(" ( ");
            reveal_strlit(" )");
            reveal_strlit(" - 0\n");
        }
        s.append("Route ");
        push_decimal(s, k);
        s.append(": 0");
        let ghost start = s@;
        let len = self.node_data_len();
        let mut current = head;
        let mut steps: usize = 0;
        while current != 0 && steps < len
            invariant
                self.wf(),
                d == self.nodes(),
                len == d.len(),
                steps <= len,
                self.is_slot(current as int),
                s@ + stops_text(d, current as int, (len - steps) as nat) == start + stops_text(d, head as int, len as nat),
            decreases len - steps,
        {
            let ghost before = s@;
            proof {
                reveal_strlit(" - ");
                reveal_strlit(" ( ");
                reveal_strlit(" )");
            }
            s.append(" - ");
            push_int(s, self.customer(current) as i32);
            s.append(" ( ");
            push_int(s, self.load(current));
            s.append(" )");
            let ghost piece = seq![' ', '-', ' '] + int_text(cust_of(d, current as int)) + seq![' ', '(', ' '] + int_text(
                load_of(d, current as int),
            ) + seq![' ', ')'];
            proof {
                assert(s@ =~= before + piece);
                assert(stops_text(d, current as int, (len - steps) as nat) == piece + stops_text(
                    d,
                    succ_of(d, current as int),
                    (len - steps - 1) as nat,
                ));
                assert(s@ + stops_text(d, succ_of(d, current as int), (len - steps - 1) as nat) =~= before + stops_text(
                    d,
                    current as int,
                    (len - steps) as nat,
                ));
            }
            current = self.successor(current);
            steps = steps + 1;
        }
        proof {
            assert(stops_text(d, current as int, (len - steps) as nat) =~= Seq::<char>::empty());
            assert(s@ =~= start + stops_text(d, head as int, len as nat));
        }
        s.append(" - 0\n");
    }

    /// The solution route by route: each slot in use without a predecessor
    /// starts a route, numbered from 1 in the order of the slots in use;
    /// each line lists the depot, the customer and load of each slot of the
    /// route, and the depot again. Routes are walked to the depot, or for
    /// as many steps as there are slots.
    pub fn to_text(&self) -> (r: String)
        requires
            self.wf(),
        ensures
            r@ == routes_text(self.nodes(), self.used(), 0, 0),
    {
        let ghost d = self.nodes();
        let ghost used = self.used();
        let nodes = self.node_indices();
        let mut s = String::new();
        let mut num_routes: u64 = 0;
        let mut i: usize = 0;
        while i < nodes.len()
            invariant
                self.wf(),
                d == self.nodes(),
                used == self.used(),
                nodes@ == used,
                i <= nodes.len(),
                num_routes <= i,
                s@ + routes_text(d, used, i as int, num_routes as nat) == routes_text(d, used, 0, 0),
            decreases nodes.len() - i,
        {
            let node_index = nodes[i];
            assert(self.used()[i as int] == node_index);
            let ghost before = s@;
            if self.predecessor(node_index) == 0 {
                num_routes = num_routes + 1;
                self.push_route(&mut s, node_index, num_routes);
                proof {
                    assert(s@ + routes_text(d, used, i + 1, num_routes as nat) =~= before + routes_text(
                        d,
                        used,
                        i as int,
                        (num_routes - 1) as nat,
                    ));
                }
            }
            i = i + 1;
        }
        proof {
            assert(routes_text(d, used, i as int, num_routes as nat) =~= Seq::<char>::empty());
            assert(s@ =~= routes_text(d, used, 0, 0));
        }
        s
    }

    /// Appends the item `{ "customer": c, "quantity": q }`.
    fn push_json_item(s: &mut String, c: i32, q: i32)
        ensures
            final(s)@ == old(s)@ + json_item(c as int, q as int),
    {
        s.append("{ \"customer\": ");
        push_int(s, c);
        s.append(", \"quantity\": ");
        push_int(s, q);
        s.append(" }");
    }

    /// Appends the array of the route that starts at `head`.
    fn push_json_route(&self, s: &mut String, head: Node)
        requires
            self.wf(),
            self.is_slot(head as int),
        ensures
            final(s)@ == old(s)@ + json_route(self.nodes(), head as int),
    {
        let ghost d = self.nodes();
        s.append("[");
        Self::push_json_item(s, 0, 0);
        let ghost start = s@;
        let len = self.node_data_len();
        let mut current = head;
        let mut steps: usize = 0;
        while current != 0 && steps < len
            invariant
                self.wf(),
                d == self.nodes(),
                len == d.len(),
                steps <= len,
                self.is_slot(current as int),
                s@ + json_stops(d, current as int, (len - steps) as nat) == start + json_stops(d, head as int, len as nat),
            decreases len - steps,
        {
            let ghost before = s@;
            s.append(", ");
            Self::push_json_item(s, self.customer(current) as i32, self.load(current));
            proof {
                assert(s@ =~= before + ", "@ + json_item(cust_of(d, current as int), load_of(d, current as int)));
                assert(s@ + json_stops(d, succ_of(d, current as int), (len - steps - 1) as nat) =~= before + json_stops(
                    d,
                    current as int,
                    (len - steps) as nat,
                ));
            }
            current = self.successor(current);
            steps = steps + 1;
        }
        proof {
            assert(json_stops(d, current as int, (len - steps) as nat) =~= Seq::<char>::empty());
            assert(s@ =~= start + json_stops(d, head as int, len as nat));
        }
        s.append(", ");
        Self::push_json_item(s, 0, 0);
        s.append("]");
        assert(s@ =~= old(s)@ + json_route(d, head as int));
    }

    /// The solution as a JSON array of routes: each slot in use without a
    /// predecessor starts a route, in the order of the slots in use; a
    /// route is an array of `{ "customer": c, "quantity": q }` items, the
    /// depot first and last. Routes are walked to the depot, or for as many
    /// steps as there are slots.
    pub fn to_json(&self) -> (r: String)
        requires
            self.wf(),
        ensures
            r@ == "["@ + json_routes(self.nodes(), self.used(), 0, true) + "]"@,
    {
        let ghost d = self.nodes();
        let ghost used = self.used();
        let nodes = self.node_indices();
        let mut s = String::new();
        s.append("[");
        let ghost start = s@;
        let mut first = true;
        let mut i: usize = 0;
        while i < nodes.len()
            invariant
                self.wf(),
                d == self.nodes(),
                used == self.used(),
                nodes@ == used,
                i <= nodes.len(),
                s@ + json_routes(d, used, i as int, first) == start + json_routes(d, used, 0, true),
            decreases nodes.len() - i,
        {
            let node_index = nodes[i];
            assert(self.used()[i as int] == node_index);
            let ghost before = s@;
            let ghost f0 = first;
            if self.predecessor(node_index) == 0 {
                if !first {
                    s.append(",\n");
                }
                self.push_json_route(&mut s, node_index);
                first = false;
                proof {
                    assert(s@ + json_routes(d, used, i + 1, first) =~= before + json_routes(d, used, i as int, f0));
                }
            }
            i = i + 1;
        }
        proof {
            assert(json_routes(d, used, i as int, first) =~= Seq::<char>::empty());
        }
        s.append("]");
        assert(s@ =~= "["@ + json_routes(d, used, 0, true) + "]"@);
        s
    }
}

} // verus!
