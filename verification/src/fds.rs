//! The table of open listening sockets.
use crate::key_codec::texts;
use vstd::prelude::*;

verus! {

/// A file descriptor as the system numbers it.
pub type RawFd = i32;

/// The bindings of `m` after those of `keys[i]` to `fds[i]` were added in
/// order: a later one replaces an earlier one of the same address.
pub open spec fn absorbed(
    m: Map<Seq<char>, RawFd>,
    keys: Seq<Seq<char>>,
    fds: Seq<RawFd>,
) -> Map<Seq<char>, RawFd>
    decreases keys.len(),
{
    if keys.len() == 0 {
        m
    } else {
        absorbed(m, keys.drop_last(), fds.drop_last()).insert(keys.last(), fds.last())
    }
}

/// No address occurs twice.
pub open spec fn distinct(keys: Seq<Seq<char>>) -> bool {
    forall|i: int, j: int| 0 <= i < j < keys.len() ==> keys[i] != keys[j]
}

/// What the bindings are where no address occurs twice.
pub proof fn lemma_absorbed(m: Map<Seq<char>, RawFd>, keys: Seq<Seq<char>>, fds: Seq<RawFd>)
    requires
        distinct(keys),
        keys.len() == fds.len(),
    ensures
        forall|k: Seq<char>| #[trigger]
            absorbed(m, keys, fds).contains_key(k) <==> m.contains_key(k) || keys.contains(k),
        forall|i: int|
            0 <= i < keys.len() ==> absorbed(m, keys, fds)[#[trigger] keys[i]] == fds[i],
        forall|k: Seq<char>|
            !keys.contains(k) && m.contains_key(k) ==> #[trigger] absorbed(m, keys, fds)[k] == m[k],
    decreases keys.len(),
{
    if keys.len() > 0 {
        let init = keys.drop_last();
        lemma_absorbed(m, init, fds.drop_last());
        let before = absorbed(m, init, fds.drop_last());
        assert(absorbed(m, keys, fds) == before.insert(keys.last(), fds.last()));
        assert forall|k: Seq<char>|
            #![trigger keys.contains(k)]
            #![trigger init.contains(k)]
            keys.contains(k) <==> init.contains(k) || k == keys.last() by {
            if init.contains(k) {
                let i = choose|i: int| 0 <= i < init.len() && init[i] == k;
                assert(keys[i] == k);
            }
            if keys.contains(k) {
                let i = choose|i: int| 0 <= i < keys.len() && keys[i] == k;
                if i < keys.len() - 1 {
                    assert(init[i] == k);
                }
            }
            if k == keys.last() {
                assert(keys[keys.len() - 1] == k);
            }
        }
        assert forall|k: Seq<char>| #[trigger]
            absorbed(m, keys, fds).contains_key(k) <==> m.contains_key(k) || keys.contains(k) by {
            assert(before.contains_key(k) <==> m.contains_key(k) || init.contains(k));
        }
        assert forall|k: Seq<char>|
            !keys.contains(k) && m.contains_key(k) implies #[trigger] absorbed(m, keys, fds)[k]
            == m[k] by {
            assert(before[k] == m[k]);
        }
        assert forall|i: int| 0 <= i < keys.len() implies absorbed(m, keys, fds)[#[trigger] keys[i]]
            == fds[i] by {
            if i < keys.len() - 1 {
                assert(init[i] == keys[i]);
                assert(keys[i] != keys[keys.len() - 1]);
            }
        }
    }
}

/// Container for open file descriptors and their associated bind addresses.
pub struct Fds {
    keys: Vec<String>,
    fds: Vec<RawFd>,
}

impl View for Fds {
    type V = Map<Seq<char>, RawFd>;

    closed spec fn view(&self) -> Map<Seq<char>, RawFd> {
        absorbed(Map::empty(), texts(self.keys@), self.fds@)
    }
}

impl Fds {
    /// Each address has one descriptor.
    pub closed spec fn wf(&self) -> bool {
        &&& self.keys@.len() == self.fds@.len()
        &&& distinct(texts(self.keys@))
    }

    /// A table without bindings.
    pub fn new() -> (r: Self)
        ensures
            r.wf(),
            r@ == Map::<Seq<char>, RawFd>::empty(),
    {
        Fds { keys: Vec::new(), fds: Vec::new() }
    }

    /// The place of an address in the table.
    fn position(&self, bind: &String) -> (r: Option<usize>)
        requires
            self.wf(),
        ensures
            match r {
                Some(i) => i < self.keys@.len() && texts(self.keys@)[i as int] == bind@,
                None => !texts(self.keys@).contains(bind@),
            },
    {
        let mut i: usize = 0;
        while i < self.keys.len()
            invariant
                i <= self.keys@.len(),
                forall|j: int| 0 <= j < i ==> #[trigger] texts(self.keys@)[j] != bind@,
            decreases self.keys@.len() - i,
        {
            if self.keys[i] == *bind {
                return Some(i);
            }
            i = i + 1;
        }
        None
    }

    /// Binds an address to a descriptor, in place of the one it had.
    pub fn add(&mut self, bind: String, fd: RawFd)
        requires
            old(self).wf(),
        ensures
            final(self).wf(),
            final(self)@ == old(self)@.insert(bind@, fd),
    {
        let ghost keys = texts(self.keys@);
        let ghost fds = self.fds@;
        proof {
            lemma_absorbed(Map::empty(), keys, fds);
        }
        match self.position(&bind) {
            Some(i) => {
                self.fds.set(i, fd);
                proof {
                    lemma_absorbed(Map::empty(), keys, self.fds@);
                    assert(keys.contains(bind@));
                    assert forall|k: Seq<char>| keys.contains(k) implies #[trigger] self@[k] == old(
                        self,
                    )@.insert(bind@, fd)[k] by {
                        let j = choose|j: int| 0 <= j < keys.len() && keys[j] == k;
                        assert(self@[keys[j]] == self.fds@[j]);
                        assert(old(self)@[keys[j]] == fds[j]);
                    }
                    assert(self@ =~= old(self)@.insert(bind@, fd));
                }
            },
            None => {
                self.keys.push(bind);
                self.fds.push(fd);
                proof {
                    let now = texts(self.keys@);
                    assert(now =~= keys.push(bind@));
                    assert(now.drop_last() =~= keys);
                    assert(self.fds@.drop_last() =~= fds);
                    assert forall|a: int, b: int| 0 <= a < b < now.len() implies now[a] != now[b] by {
                        if b == keys.len() {
                            assert(keys.contains(keys[a]));
                        }
                    }
                }
            },
        }
    }

    /// The descriptor of an address.
    pub fn get(&self, bind: &str) -> (r: Option<&RawFd>)
        requires
            self.wf(),
        ensures
            match r {
                Some(fd) => self@.contains_key(bind@) && *fd == self@[bind@],
                None => !self@.contains_key(bind@),
            },
    {
        proof {
            lemma_absorbed(Map::empty(), texts(self.keys@), self.fds@);
        }
        match self.position(&bind.to_owned()) {
            Some(i) => Some(&self.fds[i]),
            None => None,
        }
    }

    /// Drops the binding of an address, where it has one.
    pub fn remove(&mut self, bind: &str)
        requires
            old(self).wf(),
        ensures
            final(self).wf(),
            final(self)@ == old(self)@.remove(bind@),
    {
        let ghost keys = texts(self.keys@);
        let ghost fds = self.fds@;
        proof {
            lemma_absorbed(Map::empty(), keys, fds);
        }
        match self.position(&bind.to_owned()) {
            Some(i) => {
                self.keys.remove(i);
                self.fds.remove(i);
                proof {
                    let now = texts(self.keys@);
                    assert(now =~= keys.remove(i as int));
                    assert(distinct(now));
                    lemma_absorbed(Map::empty(), now, self.fds@);
                    assert forall|k: Seq<char>| now.contains(k) <==> #[trigger] keys.contains(k) && k
                        != bind@ by {
                        if now.contains(k) {
                            let j = choose|j: int| 0 <= j < now.len() && now[j] == k;
                            assert(keys[if j < i { j } else { j + 1 }] == k);
                        }
                        if keys.contains(k) && k != bind@ {
                            let j = choose|j: int| 0 <= j < keys.len() && keys[j] == k;
                            assert(now[if j < i { j } else { j - 1 }] == k);
                        }
                    }
                    assert forall|k: Seq<char>| now.contains(k) implies #[trigger] self@[k] == old(
                        self,
                    )@[k] by {
                        let j = choose|j: int| 0 <= j < now.len() && now[j] == k;
                        let j0 = if j < i { j } else { j + 1 };
                        assert(keys[j0] == k);
                        assert(self@[now[j]] == self.fds@[j]);
                        assert(old(self)@[keys[j0]] == fds[j0]);
                    }
                    assert(self@ =~= old(self)@.remove(bind@));
                }
            },
            None => {
                assert(self@ =~= old(self)@.remove(bind@));
            },
        }
    }

    /// Lists the bindings, each once: the addresses, and beside each its
    /// descriptor.
    pub fn serialize(&self) -> (r: (Vec<String>, Vec<RawFd>))
        requires
            self.wf(),
        ensures
            r.0@.len() == r.1@.len(),
            distinct(texts(r.0@)),
            absorbed(Map::empty(), texts(r.0@), r.1@) == self@,
    {
        let mut keys: Vec<String> = Vec::new();
        let mut fds: Vec<RawFd> = Vec::new();
        let mut i: usize = 0;
        while i < self.keys.len()
            invariant
                self.wf(),
                i <= self.keys@.len(),
                keys@ == self.keys@.take(i as int),
                fds@ == self.fds@.take(i as int),
            decreases self.keys@.len() - i,
        {
            keys.push(self.keys[i].clone());
            fds.push(self.fds[i]);
            i = i + 1;
        }
        assert(keys@ =~= self.keys@);
        assert(fds@ =~= self.fds@);
        (keys, fds)
    }

    /// Adds the listed bindings, in order.
    pub fn deserialize(&mut self, binds: Vec<String>, fds: Vec<RawFd>)
        requires
            old(self).wf(),
            binds@.len() == fds@.len(),
        ensures
            final(self).wf(),
            final(self)@ == absorbed(old(self)@, texts(binds@), fds@),
    {
        let ghost keys = texts(binds@);
        let mut i: usize = 0;
        while i < binds.len()
            invariant
                self.wf(),
                i <= binds@.len(),
                binds@.len() == fds@.len(),
                keys == texts(binds@),
                self@ == absorbed(old(self)@, keys.take(i as int), fds@.take(i as int)),
            decreases binds@.len() - i,
        {
            self.add(binds[i].clone(), fds[i]);
            proof {
                assert(keys.take(i + 1).drop_last() =~= keys.take(i as int));
                assert(fds@.take(i + 1).drop_last() =~= fds@.take(i as int));
            }
            i = i + 1;
        }
        assert(keys.take(i as int) =~= keys);
        assert(fds@.take(i as int) =~= fds@);
    }
}

/// Each address is bound to the descriptor beside its last place in the list,
/// and one that is not in the list to what it was bound to before.
pub proof fn law_last_binding_wins(
    m: Map<Seq<char>, RawFd>,
    keys: Seq<Seq<char>>,
    fds: Seq<RawFd>,
    k: Seq<char>,
    i: int,
)
    requires
        keys.len() == fds.len(),
    ensures
        0 <= i < keys.len() && keys[i] == k && (forall|j: int|
            i < j < keys.len() ==> #[trigger] keys[j] != k) ==> absorbed(m, keys, fds).contains_key(
            k,
        ) && absorbed(m, keys, fds)[k] == fds[i],
        (forall|j: int| 0 <= j < keys.len() ==> #[trigger] keys[j] != k) ==> (absorbed(
            m,
            keys,
            fds,
        ).contains_key(k) <==> m.contains_key(k)) && absorbed(m, keys, fds)[k] == m[k],
    decreases keys.len(),
{
    if keys.len() > 0 {
        let n = keys.len() - 1;
        assert(keys[n] == keys.last());
        if keys.last() != k {
            assert forall|j: int| 0 <= j < n implies #[trigger] keys.drop_last()[j] == keys[j] by {
            }
            law_last_binding_wins(m, keys.drop_last(), fds.drop_last(), k, i);
        }
    }
}

/// Addresses are distinct where no two places hold the same one.
pub proof fn law_distinct(keys: Seq<Seq<char>>)
    ensures
        distinct(keys) <==> keys.no_duplicates(),
{
    assert(distinct(keys) ==> keys.no_duplicates());
}

} // verus!
