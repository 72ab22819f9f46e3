//! The servers of the cluster, asked in turn.

use std::sync::Arc;
use vstd::prelude::*;

verus! {

/// The clients of the servers, and which of them was used last.
pub struct RpcClients<C> {
    clients: Vec<Arc<C>>,
    last_index: usize,
}

/// The client that comes after the one at `last`, where there are `n`.
pub open spec fn next_index(last: int, n: int) -> int {
    (last + 1) % n
}

/// The client that is used `k` uses after the one at `last`.
pub open spec fn index_after(last: int, n: int, k: nat) -> int
    decreases k,
{
    if k == 0 {
        last
    } else {
        next_index(index_after(last, n, (k - 1) as nat), n)
    }
}

impl<C> RpcClients<C> {
    /// The clients, in their order.
    pub closed spec fn clients(self) -> Seq<Arc<C>> {
        self.clients@
    }

    /// Which client was used last.
    pub closed spec fn last(self) -> int {
        self.last_index as int
    }

    /// The client that was used last is one of them, if there are any.
    pub open spec fn wf(self) -> bool {
        0 <= self.last() && (self.clients().len() > 0 ==> self.last() < self.clients().len())
    }

    /// Clients of which the second will be used first.
    pub fn new(clients: Vec<Arc<C>>) -> (rpc_clients: RpcClients<C>)
        ensures
            rpc_clients.wf(),
            rpc_clients.clients() == clients@,
            rpc_clients.last() == 0,
    {
        RpcClients { clients, last_index: 0 }
    }

    /// How many clients there are.
    pub fn count(&self) -> (n: usize)
        ensures
            n == self.clients().len(),
    {
        self.clients.len()
    }

    /// The next client, in a round-robin fashion.
    pub fn get(&mut self) -> (client: Arc<C>)
        requires
            old(self).wf(),
            old(self).clients().len() > 0,
        ensures
            final(self).wf(),
            final(self).clients() == old(self).clients(),
            final(self).last() == next_index(old(self).last(), old(self).clients().len() as int),
            client == old(self).clients()[final(self).last()],
    {
        let n: usize = self.clients.len();
        let next: usize = if self.last_index + 1 == n {
            0
        } else {
            self.last_index + 1
        };
        proof {
            if self.last_index + 1 < n {
                vstd::arithmetic::div_mod::lemma_small_mod(
                    (self.last_index + 1) as nat,
                    n as nat,
                );
            } else {
                vstd::arithmetic::div_mod::lemma_mod_self_0(n as int);
            }
        }
        self.last_index = next;
        self.clients[self.last_index].clone()
    }
}

/// The uses go round: `k` uses lead `k` places on.
pub proof fn uses_go_round(last: int, n: int, k: nat)
    requires
        0 <= last < n,
    ensures
        index_after(last, n, k) == (last + k) % n,
        0 <= index_after(last, n, k) < n,
    decreases k,
{
    if k == 0 {
        vstd::arithmetic::div_mod::lemma_small_mod(last as nat, n as nat);
    } else {
        uses_go_round(last, n, (k - 1) as nat);
        vstd::arithmetic::div_mod::lemma_add_mod_noop(last + k - 1, 1, n);
        vstd::arithmetic::div_mod::lemma_mod_bound(last + k, n);
        vstd::arithmetic::div_mod::lemma_add_mod_noop((last + k - 1) % n, 1, n);
        vstd::arithmetic::div_mod::lemma_mod_twice(last + k - 1, n);
    }
}

/// As many uses as there are clients use each of them, and none of them twice: the
/// client at `index` is used at one of these uses, and another use among them is of
/// another client.
pub proof fn each_client_has_its_turn(last: int, n: int, index: int, other: nat) -> (turn: nat)
    requires
        0 <= last < n,
        0 <= index < n,
        1 <= other <= n,
    ensures
        1 <= turn <= n,
        index_after(last, n, turn) == index,
        other != turn ==> index_after(last, n, other) != index,
{
    let turn: nat = if index > last {
        (index - last) as nat
    } else {
        (index - last + n) as nat
    };
    uses_go_round(last, n, turn);
    uses_go_round(last, n, other);
    lemma_wrap(last + turn, n);
    lemma_wrap(last + other, n);
    turn
}

/// Below twice the divisor, the remainder is what is left of one divisor.
proof fn lemma_wrap(x: int, n: int)
    requires
        0 <= x < 2 * n,
    ensures
        x % n == if x < n {
            x
        } else {
            x - n
        },
{
    if x < n {
        vstd::arithmetic::div_mod::lemma_small_mod(x as nat, n as nat);
    } else {
        vstd::arithmetic::div_mod::lemma_small_mod((x - n) as nat, n as nat);
        vstd::arithmetic::div_mod::lemma_mod_sub_multiples_vanish(x, n);
    }
}

} // verus!
