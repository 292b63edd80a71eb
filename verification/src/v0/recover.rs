//! Recovering a backup: the documents that were handed in are grouped by
//! what they say of their backup, forgeries are told apart, and a quorum of
//! key shards that agree recovers the secret or deals new key shards.

use crate::crypto::{
    aead_decrypt, chacha20poly1305_open, chacha20poly1305_seal, ed25519_public,
    ed25519_public_key, ed25519_signature, ed25519_verifies, ed25519_verify_strict,
    CHACHAPOLY_NONCE_LENGTH, PUBLIC_KEY_LENGTH, SIGNATURE_LENGTH,
};
use crate::shamir::dealer::{
    interpolated_shard, recover_error, recovered_secret, views, xs_of, Dealer,
};
use crate::shamir::lagrange::distinct;
use crate::shamir::shard::{parse_id, parse_id_spec, shard_id, Shard, ShardView};
use crate::v0::backup::Backup;
use crate::v0::wire::helpers::{bytes_equal, Multihash, MultihashView};
use crate::v0::wire::internal::parse_shard_secret;
use crate::v0::wire::key_shard::key_shard_builder_wire;
use crate::v0::wire::main_document::{main_document_builder_wire, main_document_wire};
use crate::v0::wire::{whole, FromWire};
use crate::v0::{
    aad_of, checksum_of, signable, Error, KeyShard, KeyShardBuilder, KeyShardBuilderView,
    KeyShardView, MainDocument, MainDocumentView, ShardSecret, ShardSecretView,
};
use vstd::prelude::*;

verus! {

/// What a document holds, and whether its signature verifies.
pub enum TypeView {
    MainDocument(MainDocumentView),
    ForgedMainDocument(MainDocumentView),
    KeyShard(KeyShardView),
    ForgedKeyShard(KeyShardView),
}

/// A document that was handed in, and whether its signature verifies.
#[derive(Debug)]
pub enum Type {
    MainDocument(MainDocument),
    ForgedMainDocument(MainDocument),
    KeyShard(KeyShard),
    ForgedKeyShard(KeyShard),
}

impl View for Type {
    type V = TypeView;

    open spec fn view(&self) -> TypeView {
        match self {
            Type::MainDocument(m) => TypeView::MainDocument(m@),
            Type::ForgedMainDocument(m) => TypeView::ForgedMainDocument(m@),
            Type::KeyShard(k) => TypeView::KeyShard(k@),
            Type::ForgedKeyShard(k) => TypeView::ForgedKeyShard(k@),
        }
    }
}

impl Clone for Type {
    fn clone(&self) -> (c: Type)
        ensures
            c@ == self@,
    {
        match self {
            Type::MainDocument(m) => Type::MainDocument(m.clone()),
            Type::ForgedMainDocument(m) => Type::ForgedMainDocument(m.clone()),
            Type::KeyShard(k) => Type::KeyShard(k.clone()),
            Type::ForgedKeyShard(k) => Type::ForgedKeyShard(k.clone()),
        }
    }
}

/// Whether the signature of a main document verifies under its public key.
pub open spec fn main_genuine(m: MainDocumentView) -> bool {
    &&& m.identity.id_public_key.len() == PUBLIC_KEY_LENGTH
    &&& m.identity.id_signature.len() == SIGNATURE_LENGTH
    &&& ed25519_verifies(
        m.identity.id_public_key,
        signable(main_document_builder_wire(m.inner), m.identity.id_public_key),
        m.identity.id_signature,
    )
}

/// Whether the signature of a key shard verifies under its public key.
pub open spec fn shard_genuine(k: KeyShardView) -> bool {
    &&& k.identity.id_public_key.len() == PUBLIC_KEY_LENGTH
    &&& k.identity.id_signature.len() == SIGNATURE_LENGTH
    &&& ed25519_verifies(
        k.identity.id_public_key,
        signable(key_shard_builder_wire(k.inner), k.identity.id_public_key),
        k.identity.id_signature,
    )
}

/// A main document, marked as forged unless its signature verifies.
pub open spec fn classify_main(m: MainDocumentView) -> TypeView {
    if main_genuine(m) {
        TypeView::MainDocument(m)
    } else {
        TypeView::ForgedMainDocument(m)
    }
}

/// A key shard, marked as forged unless its signature verifies.
pub open spec fn classify_shard(k: KeyShardView) -> TypeView {
    if shard_genuine(k) {
        TypeView::KeyShard(k)
    } else {
        TypeView::ForgedKeyShard(k)
    }
}

/// A main document, marked as forged unless its signature verifies.
pub open spec fn marked_main(main: MainDocument) -> Type {
    if main_genuine(main@) {
        Type::MainDocument(main)
    } else {
        Type::ForgedMainDocument(main)
    }
}

/// A key shard, marked as forged unless its signature verifies.
pub open spec fn marked_shard(shard: KeyShard) -> Type {
    if shard_genuine(shard@) {
        Type::KeyShard(shard)
    } else {
        Type::ForgedKeyShard(shard)
    }
}

impl Type {
    /// The main document, if this is one that is not forged.
    pub fn main_document(&self) -> (res: Option<&MainDocument>)
        ensures
            match *self {
                Type::MainDocument(m) => res == Some(&m),
                _ => res is None,
            },
    {
        match self {
            Type::MainDocument(m) => Some(m),
            _ => None,
        }
    }

    /// The key shard, if this is one that is not forged.
    pub fn key_shard(&self) -> (res: Option<&KeyShard>)
        ensures
            match *self {
                Type::KeyShard(k) => res == Some(&k),
                _ => res is None,
            },
    {
        match self {
            Type::KeyShard(k) => Some(k),
            _ => None,
        }
    }

    /// Verifies the signature of a main document.
    pub fn from_main_document(main: MainDocument) -> (t: Type)
        ensures
            t == marked_main(main),
            t@ == classify_main(main@),
    {
        if main.identity.id_public_key.len() != PUBLIC_KEY_LENGTH
            || main.identity.id_signature.len() != SIGNATURE_LENGTH {
            return Type::ForgedMainDocument(main);
        }
        let bytes = main.inner.signable_bytes(main.identity.id_public_key.as_slice());
        if ed25519_verify_strict(
            main.identity.id_public_key.as_slice(),
            bytes.as_slice(),
            main.identity.id_signature.as_slice(),
        ) {
            Type::MainDocument(main)
        } else {
            Type::ForgedMainDocument(main)
        }
    }

    /// Verifies the signature of a key shard.
    pub fn from_key_shard(shard: KeyShard) -> (t: Type)
        ensures
            t == marked_shard(shard),
            t@ == classify_shard(shard@),
    {
        if shard.identity.id_public_key.len() != PUBLIC_KEY_LENGTH
            || shard.identity.id_signature.len() != SIGNATURE_LENGTH {
            return Type::ForgedKeyShard(shard);
        }
        let bytes = shard.inner.signable_bytes(shard.identity.id_public_key.as_slice());
        if ed25519_verify_strict(
            shard.identity.id_public_key.as_slice(),
            bytes.as_slice(),
            shard.identity.id_signature.as_slice(),
        ) {
            Type::KeyShard(shard)
        } else {
            Type::ForgedKeyShard(shard)
        }
    }
}

impl From<MainDocument> for Type {
    fn from(main: MainDocument) -> (t: Type) {
        Type::from_main_document(main)
    }
}

impl vstd::std_specs::convert::FromSpecImpl<MainDocument> for Type {
    open spec fn obeys_from_spec() -> bool {
        true
    }

    open spec fn from_spec(main: MainDocument) -> Type {
        marked_main(main)
    }
}

impl From<KeyShard> for Type {
    fn from(shard: KeyShard) -> (t: Type) {
        Type::from_key_shard(shard)
    }
}

impl vstd::std_specs::convert::FromSpecImpl<KeyShard> for Type {
    open spec fn obeys_from_spec() -> bool {
        true
    }

    open spec fn from_spec(shard: KeyShard) -> Type {
        marked_shard(shard)
    }
}

/// What all documents of one backup agree on.
pub struct GroupIdView {
    pub version: u32,
    pub doc_chksum: MultihashView,
    pub quorum_size: u32,
    pub id_public_key: Seq<u8>,
}

/// What a main document says of its backup.
pub open spec fn group_of_main(m: MainDocumentView) -> GroupIdView {
    GroupIdView {
        version: m.inner.meta.version,
        doc_chksum: checksum_of(main_document_wire(m)),
        quorum_size: m.inner.meta.quorum_size,
        id_public_key: m.identity.id_public_key,
    }
}

/// What a key shard says of its backup.
pub open spec fn group_of_shard(k: KeyShardView) -> GroupIdView {
    GroupIdView {
        version: k.inner.version,
        doc_chksum: k.inner.doc_chksum,
        quorum_size: k.inner.shard.threshold,
        id_public_key: k.identity.id_public_key,
    }
}

/// What a document says of its backup.
pub open spec fn group_of(t: TypeView) -> GroupIdView {
    match t {
        TypeView::MainDocument(m) => group_of_main(m),
        TypeView::ForgedMainDocument(m) => group_of_main(m),
        TypeView::KeyShard(k) => group_of_shard(k),
        TypeView::ForgedKeyShard(k) => group_of_shard(k),
    }
}

/// Whether a document is marked as forged.
pub open spec fn is_forged(t: TypeView) -> bool {
    t is ForgedMainDocument || t is ForgedKeyShard
}

struct GroupId {
    // All documents must agree on the paperback version.
    version: u32,
    // All documents must agree on the document checksum.
    doc_chksum: Multihash,
    // All documents must agree on quorum size.
    quorum_size: u32,
    // All documents must use the same public key for their identity.
    id_public_key: Vec<u8>,
}

impl View for GroupId {
    type V = GroupIdView;

    closed spec fn view(&self) -> GroupIdView {
        GroupIdView {
            version: self.version,
            doc_chksum: self.doc_chksum@,
            quorum_size: self.quorum_size,
            id_public_key: self.id_public_key@,
        }
    }
}

impl GroupId {
    fn of_main_document(main: &MainDocument) -> (g: GroupId)
        ensures
            g@ == group_of_main(main@),
    {
        GroupId {
            version: main.inner.meta.version,
            doc_chksum: main.checksum(),
            quorum_size: main.quorum_size(),
            id_public_key: main.identity.id_public_key.clone(),
        }
    }

    fn of_key_shard(shard: &KeyShard) -> (g: GroupId)
        ensures
            g@ == group_of_shard(shard@),
    {
        GroupId {
            version: shard.inner.version,
            doc_chksum: shard.document_checksum(),
            quorum_size: shard.quorum_size(),
            id_public_key: shard.identity.id_public_key.clone(),
        }
    }

    fn of(document: &Type) -> (g: GroupId)
        ensures
            g@ == group_of(document@),
    {
        match document {
            Type::MainDocument(main) => GroupId::of_main_document(main),
            Type::ForgedMainDocument(main) => GroupId::of_main_document(main),
            Type::KeyShard(shard) => GroupId::of_key_shard(shard),
            Type::ForgedKeyShard(shard) => GroupId::of_key_shard(shard),
        }
    }

    fn same(&self, other: &GroupId) -> (b: bool)
        ensures
            b == (self@ == other@),
    {
        self.version == other.version && self.doc_chksum.same(&other.doc_chksum)
            && self.quorum_size == other.quorum_size && bytes_equal(
            self.id_public_key.as_slice(),
            other.id_public_key.as_slice(),
        )
    }
}

/// The groups with `item` put into the first group from the `i`-th on whose
/// documents say of their backup what `item` says, or into a new group
/// after the others where there is none.
pub open spec fn place(groups: Seq<Seq<TypeView>>, item: TypeView, i: nat) -> Seq<Seq<TypeView>>
    decreases groups.len() - i,
{
    if i >= groups.len() {
        groups.push(seq![item])
    } else if group_of(groups[i as int][0]) == group_of(item) {
        groups.update(i as int, groups[i as int].push(item))
    } else {
        place(groups, item, i + 1)
    }
}

/// The documents grouped by what they say of their backup: the groups in
/// the order in which their first documents stand, and the documents of a
/// group in their order.
pub open spec fn groups_of(items: Seq<TypeView>) -> Seq<Seq<TypeView>>
    decreases items.len(),
{
    if items.len() == 0 {
        Seq::empty()
    } else {
        place(groups_of(items.drop_last()), items.last(), 0)
    }
}

/// Whether the groups are groups: none is empty, the documents of one say
/// the same of their backup, and those of two do not.
pub open spec fn grouped(groups: Seq<Seq<TypeView>>) -> bool {
    &&& forall|g: int| 0 <= g < groups.len() ==> (#[trigger] groups[g]).len() > 0
    &&& forall|g: int, i: int|
        0 <= g < groups.len() && 0 <= i < groups[g].len() ==> group_of(#[trigger] groups[g][i])
            == group_of(groups[g][0])
    &&& forall|g: int, h: int|
        0 <= g < h < groups.len() ==> group_of(#[trigger] groups[g][0]) != group_of(
            #[trigger] groups[h][0],
        )
}

proof fn lemma_place(groups: Seq<Seq<TypeView>>, item: TypeView, i: nat)
    requires
        grouped(groups),
        i <= groups.len(),
        forall|g: int| 0 <= g < i ==> group_of(#[trigger] groups[g][0]) != group_of(item),
    ensures
        grouped(place(groups, item, i)),
        place(groups, item, i).len() == (if exists|g: int|
            0 <= g < groups.len() && group_of(#[trigger] groups[g][0]) == group_of(item) {
            groups.len()
        } else {
            groups.len() + 1
        }),
        groups.len() == 1 && place(groups, item, i).len() == 1 ==> place(groups, item, i)[0]
            == groups[0].push(item) && group_of(item) == group_of(groups[0][0]),
        groups.len() == 0 ==> place(groups, item, i) == seq![seq![item]],
    decreases groups.len() - i,
{
    if i >= groups.len() {
        let placed = groups.push(seq![item]);
        assert(placed[groups.len() as int][0] == item);
        assert forall|g: int, j: int|
            0 <= g < placed.len() && 0 <= j < placed[g].len() implies group_of(
            #[trigger] placed[g][j],
        ) == group_of(placed[g][0]) by {
            if g < groups.len() {
                assert(placed[g] == groups[g]);
            }
        }
        assert forall|g: int, h: int| 0 <= g < h < placed.len() implies group_of(
            #[trigger] placed[g][0],
        ) != group_of(#[trigger] placed[h][0]) by {
            assert(placed[g] == groups[g]);
            if h < groups.len() {
                assert(placed[h] == groups[h]);
            }
        }
        assert(grouped(placed));
    } else if group_of(groups[i as int][0]) == group_of(item) {
        let placed = groups.update(i as int, groups[i as int].push(item));
        assert forall|g: int, j: int|
            0 <= g < placed.len() && 0 <= j < placed[g].len() implies group_of(
            #[trigger] placed[g][j],
        ) == group_of(placed[g][0]) by {
            if g != i {
                assert(placed[g] == groups[g]);
            } else if j < groups[g].len() {
                assert(placed[g][j] == groups[g][j]);
            }
        }
        assert forall|g: int, h: int| 0 <= g < h < placed.len() implies group_of(
            #[trigger] placed[g][0],
        ) != group_of(#[trigger] placed[h][0]) by {
            assert(placed[g][0] == groups[g][0]);
            assert(placed[h][0] == groups[h][0]);
        }
        assert forall|g: int| 0 <= g < placed.len() implies (#[trigger] placed[g]).len() > 0 by {
            if g != i {
                assert(placed[g] == groups[g]);
            }
        }
        assert(grouped(placed));
        assert(group_of(groups[i as int][0]) == group_of(item));
    } else {
        lemma_place(groups, item, i + 1);
    }
}

/// Grouping makes groups.
pub proof fn lemma_groups_of(items: Seq<TypeView>)
    ensures
        grouped(groups_of(items)),
        items.len() > 0 ==> groups_of(items).len() > 0,
    decreases items.len(),
{
    if items.len() > 0 {
        lemma_groups_of(items.drop_last());
        lemma_place(groups_of(items.drop_last()), items.last(), 0);
    }
}

/// Documents make one group exactly if there is one and all say the same
/// of their backup. The one group then holds the documents in their order.
pub proof fn lemma_single_group(items: Seq<TypeView>)
    ensures
        groups_of(items).len() == 1 <==> items.len() > 0 && forall|i: int|
            0 <= i < items.len() ==> group_of(#[trigger] items[i]) == group_of(items[0]),
        groups_of(items).len() == 1 ==> groups_of(items)[0] == items,
    decreases items.len(),
{
    if items.len() > 0 {
        let before = items.drop_last();
        let groups = groups_of(before);
        lemma_single_group(before);
        lemma_groups_of(before);
        lemma_place(groups, items.last(), 0);
        let placed = groups_of(items);
        if before.len() == 0 {
            assert(placed[0] =~= items);
        } else if groups.len() == 1 {
            if placed.len() == 1 {
                assert(before.push(items.last()) =~= items);
                assert forall|i: int| 0 <= i < items.len() implies group_of(#[trigger] items[i])
                    == group_of(items[0]) by {
                    if i < before.len() {
                        assert(before[i] == items[i]);
                    }
                    assert(before[0] == items[0]);
                }
            } else {
                assert(group_of(groups[0][0]) != group_of(items.last()));
                assert(before[0] == items[0]);
                assert(items[items.len() - 1] == items.last());
            }
            if forall|i: int|
                0 <= i < items.len() ==> group_of(#[trigger] items[i]) == group_of(items[0]) {
                assert(group_of(items[items.len() - 1]) == group_of(items[0]));
                assert(before[0] == items[0]);
                assert(group_of(groups[0][0]) == group_of(items.last()));
            }
        } else {
            // more than one group before, and no fewer after
            assert forall|i: int| 0 <= i < before.len() implies before[i] == items[i] by {}
            if forall|i: int|
                0 <= i < items.len() ==> group_of(#[trigger] items[i]) == group_of(items[0]) {
                assert forall|i: int| 0 <= i < before.len() implies group_of(
                    #[trigger] before[i],
                ) == group_of(before[0]) by {
                    assert(before[i] == items[i]);
                    assert(before[0] == items[0]);
                }
            }
        }
    }
}

/// Whether one of the documents says `id` of its backup.
pub open spec fn occurs(items: Seq<TypeView>, id: GroupIdView) -> bool {
    exists|i: int| 0 <= i < items.len() && group_of(#[trigger] items[i]) == id
}

/// Whether the documents of one of the groups say `id` of their backup.
pub open spec fn has_group(groups: Seq<Seq<TypeView>>, id: GroupIdView) -> bool {
    exists|g: int| 0 <= g < groups.len() && group_of((#[trigger] groups[g])[0]) == id
}

proof fn lemma_place_holds(groups: Seq<Seq<TypeView>>, item: TypeView, i: nat, id: GroupIdView)
    requires
        grouped(groups),
        i <= groups.len(),
    ensures
        has_group(place(groups, item, i), id) <==> (group_of(item) == id || has_group(groups, id)),
    decreases groups.len() - i,
{
    let placed = place(groups, item, i);
    if i >= groups.len() {
        assert(placed[groups.len() as int][0] == item);
        if has_group(groups, id) {
            let g = choose|g: int|
                0 <= g < groups.len() && group_of((#[trigger] groups[g])[0]) == id;
            assert(placed[g] == groups[g]);
        }
        if has_group(placed, id) {
            let g = choose|g: int|
                0 <= g < placed.len() && group_of((#[trigger] placed[g])[0]) == id;
            if g < groups.len() {
                assert(placed[g] == groups[g]);
            }
        }
    } else if group_of(groups[i as int][0]) == group_of(item) {
        assert(groups[i as int].len() > 0);
        assert(placed[i as int][0] == groups[i as int][0]);
        if has_group(groups, id) {
            let g = choose|g: int|
                0 <= g < groups.len() && group_of((#[trigger] groups[g])[0]) == id;
            assert(groups[g].len() > 0);
            assert(placed[g][0] == groups[g][0]);
        }
        if has_group(placed, id) {
            let g = choose|g: int|
                0 <= g < placed.len() && group_of((#[trigger] placed[g])[0]) == id;
            assert(groups[g].len() > 0);
            assert(placed[g][0] == groups[g][0]);
        }
    } else {
        lemma_place_holds(groups, item, i + 1, id);
    }
}

/// The groups say of their backups what the documents say.
pub proof fn lemma_groups_hold(items: Seq<TypeView>, id: GroupIdView)
    ensures
        occurs(items, id) <==> has_group(groups_of(items), id),
    decreases items.len(),
{
    if items.len() > 0 {
        let before = items.drop_last();
        let item = items.last();
        lemma_groups_hold(before, id);
        lemma_groups_of(before);
        lemma_place_holds(groups_of(before), item, 0, id);
        if occurs(items, id) {
            let i = choose|i: int| 0 <= i < items.len() && group_of(#[trigger] items[i]) == id;
            if i < before.len() {
                assert(before[i] == items[i]);
            }
        }
        if occurs(before, id) {
            let i = choose|i: int| 0 <= i < before.len() && group_of(#[trigger] before[i]) == id;
            assert(items[i] == before[i]);
        }
        if group_of(item) == id {
            assert(items[items.len() - 1] == item);
        }
    }
}

/// The documents that say `id` of their backup, in their order.
pub open spec fn members(items: Seq<TypeView>, id: GroupIdView) -> Seq<TypeView>
    decreases items.len(),
{
    if items.len() == 0 {
        Seq::empty()
    } else {
        let rest = members(items.drop_last(), id);
        if group_of(items.last()) == id {
            rest.push(items.last())
        } else {
            rest
        }
    }
}

proof fn lemma_no_members(items: Seq<TypeView>, id: GroupIdView)
    requires
        !occurs(items, id),
    ensures
        members(items, id).len() == 0,
    decreases items.len(),
{
    if items.len() > 0 {
        let before = items.drop_last();
        assert(group_of(items[items.len() - 1]) != id);
        if occurs(before, id) {
            let i = choose|i: int| 0 <= i < before.len() && group_of(#[trigger] before[i]) == id;
            assert(items[i] == before[i]);
        }
        lemma_no_members(before, id);
    }
}

proof fn lemma_place_result(groups: Seq<Seq<TypeView>>, item: TypeView, i: nat)
    requires
        i <= groups.len(),
        forall|h: int| 0 <= h < i ==> group_of((#[trigger] groups[h])[0]) != group_of(item),
    ensures
        has_group(groups, group_of(item)) ==> exists|g: int|
            0 <= g < groups.len() && group_of((#[trigger] groups[g])[0]) == group_of(item)
                && place(groups, item, i) == groups.update(g, groups[g].push(item)),
        !has_group(groups, group_of(item)) ==> place(groups, item, i) == groups.push(seq![item]),
    decreases groups.len() - i,
{
    if i < groups.len() {
        if group_of(groups[i as int][0]) == group_of(item) {
            assert(group_of((groups[i as int])[0]) == group_of(item));
        } else {
            lemma_place_result(groups, item, i + 1);
        }
    }
}

/// Each group holds the documents that say of their backup what its first
/// document says, all of them and no other, in their order.
pub proof fn lemma_groups_hold_members(items: Seq<TypeView>)
    ensures
        forall|g: int|
            0 <= g < groups_of(items).len() ==> #[trigger] groups_of(items)[g] == members(
                items,
                group_of(groups_of(items)[g][0]),
            ),
    decreases items.len(),
{
    if items.len() > 0 {
        let before = items.drop_last();
        let item = items.last();
        let groups = groups_of(before);
        let placed = groups_of(items);
        let id = group_of(item);
        lemma_groups_hold_members(before);
        lemma_groups_of(before);
        lemma_groups_of(items);
        lemma_groups_hold(before, id);
        lemma_place_result(groups, item, 0);
        if has_group(groups, id) {
            let at = choose|g: int|
                0 <= g < groups.len() && group_of((#[trigger] groups[g])[0]) == id && placed
                    == groups.update(g, groups[g].push(item));
            assert forall|g: int| 0 <= g < placed.len() implies #[trigger] placed[g] == members(
                items,
                group_of(placed[g][0]),
            ) by {
                assert(groups[g].len() > 0);
                assert(groups[g] == members(before, group_of(groups[g][0])));
                if g != at {
                    if g < at {
                        assert(group_of(groups[g][0]) != group_of(groups[at][0]));
                    } else {
                        assert(group_of(groups[at][0]) != group_of(groups[g][0]));
                    }
                }
            }
        } else {
            lemma_no_members(before, id);
            assert forall|g: int| 0 <= g < placed.len() implies #[trigger] placed[g] == members(
                items,
                group_of(placed[g][0]),
            ) by {
                if g < groups.len() {
                    assert(placed[g] == groups[g]);
                    assert(groups[g] == members(before, group_of(groups[g][0])));
                    assert(group_of((groups[g])[0]) != id);
                } else {
                    assert(placed[g] =~= seq![item]);
                    assert(members(before, id) =~= Seq::<TypeView>::empty());
                    assert(members(items, id) =~= seq![item]);
                }
            }
        }
    }
}

/// Documents of two backups make two groups: where the documents say one
/// of two things of their backup, and each is said by one of them, there
/// are two groups.
pub proof fn lemma_two_groups(items: Seq<TypeView>, a: GroupIdView, b: GroupIdView)
    requires
        a != b,
        occurs(items, a),
        occurs(items, b),
        forall|i: int|
            0 <= i < items.len() ==> group_of(#[trigger] items[i]) == a || group_of(items[i]) == b,
    ensures
        groups_of(items).len() == 2,
{
    let groups = groups_of(items);
    lemma_groups_of(items);
    lemma_groups_hold(items, a);
    lemma_groups_hold(items, b);
    let ga = choose|g: int| 0 <= g < groups.len() && group_of((#[trigger] groups[g])[0]) == a;
    let gb = choose|g: int| 0 <= g < groups.len() && group_of((#[trigger] groups[g])[0]) == b;
    assert(ga != gb);
    if groups.len() > 2 {
        // a third group would say what one of the two says
        let gc = if ga != 0 && gb != 0 {
            0int
        } else if ga != 1 && gb != 1 {
            1int
        } else {
            2int
        };
        let id = group_of(groups[gc][0]);
        assert(has_group(groups, id));
        lemma_groups_hold(items, id);
        let i = choose|i: int| 0 <= i < items.len() && group_of(#[trigger] items[i]) == id;
        assert(id == a || id == b);
        let other = if id == a {
            ga
        } else {
            gb
        };
        if gc < other {
            assert(group_of(groups[gc][0]) != group_of(groups[other][0]));
        } else {
            assert(group_of(groups[other][0]) != group_of(groups[gc][0]));
        }
    }
}

/// What groups of documents hold.
pub open spec fn group_views(groups: Seq<Vec<Type>>) -> Seq<Seq<TypeView>> {
    groups.map_values(|g: Vec<Type>| type_views(g@))
}

/// What documents hold.
pub open spec fn type_views(documents: Seq<Type>) -> Seq<TypeView> {
    documents.map_values(|t: Type| t@)
}

/// What key shards hold.
pub open spec fn shard_views(shards: Seq<KeyShard>) -> Seq<KeyShardView> {
    shards.map_values(|k: KeyShard| k@)
}

/// The documents of a quorum, grouped by what they say of their backup.
#[derive(Debug)]
pub struct Grouping(pub Vec<Vec<Type>>);

/// Why the documents that were handed in are no quorum.
#[derive(Debug, Clone, Copy, PartialEq, Eq, Structural)]
pub enum Inconsistency {
    /// The documents are not of one backup, or there is none.
    Groups,
    /// A document is forged.
    Forged,
    /// There is more than one main document.
    MainDocuments,
    /// There is neither a main document nor a key shard.
    Empty,
    /// The main document asks for another number of key shards.
    QuorumSize { needed: u32, found: usize },
    /// A document disagrees with the others on the backup.
    Identity,
}

/// The documents that were handed in are no quorum.
#[derive(Debug)]
pub struct InconsistentQuorumError {
    pub kind: Inconsistency,
    groups: Grouping,
}

impl InconsistentQuorumError {
    /// Why the documents are no quorum.
    pub closed spec fn reason(&self) -> Inconsistency {
        self.kind
    }

    /// The groups of documents.
    pub closed spec fn groups(&self) -> Seq<Seq<TypeView>> {
        group_views(self.groups.0@)
    }

    /// The documents, grouped by what they say of their backup.
    pub fn as_groups(&self) -> (groups: &Grouping)
        ensures
            group_views(groups.0@) == self.groups(),
    {
        &self.groups
    }
}

/// Documents that were handed in and of which nothing is known yet: at most
/// one main document, and key shards of which no two have the same
/// identifier and say the same of their backup.
#[derive(Debug)]
pub struct UntrustedQuorum {
    untrusted_quorum_size: Option<u32>,
    untrusted_main_document: Option<MainDocument>,
    untrusted_shards: Vec<KeyShard>,
}

/// Whether two key shards are the same one to a quorum: they say the same of
/// their backup and have the same identifier.
pub open spec fn same_shard(a: KeyShardView, b: KeyShardView) -> bool {
    group_of_shard(a) == group_of_shard(b) && shard_id(a.inner.shard.x) == shard_id(
        b.inner.shard.x,
    )
}

/// Whether no two of the key shards are the same one to a quorum.
pub open spec fn no_shard_twice(shards: Seq<KeyShardView>) -> bool {
    forall|i: int, j: int|
        0 <= i < j < shards.len() ==> !same_shard(#[trigger] shards[i], #[trigger] shards[j])
}

/// What `find_shard` finds is the first key shard that is the same one as
/// `shard`, and it finds none only where there is none.
pub proof fn lemma_find_shard(shards: Seq<KeyShardView>, shard: KeyShardView, n: nat)
    requires
        n <= shards.len(),
    ensures
        match find_shard(shards, shard, n) {
            Some(i) => 0 <= i < n && same_shard(shards[i], shard) && forall|j: int|
                0 <= j < i ==> !same_shard(#[trigger] shards[j], shard),
            None => forall|j: int| 0 <= j < n ==> !same_shard(#[trigger] shards[j], shard),
        },
    decreases n,
{
    if n > 0 {
        lemma_find_shard(shards, shard, (n - 1) as nat);
    }
}

/// The first key shard among the first `n` that is the same one as `shard`,
/// if there is one.
pub open spec fn find_shard(shards: Seq<KeyShardView>, shard: KeyShardView, n: nat) -> Option<int>
    decreases n,
{
    if n == 0 {
        None
    } else {
        match find_shard(shards, shard, (n - 1) as nat) {
            Some(i) => Some(i),
            None => if same_shard(shards[n - 1], shard) {
                Some(n - 1)
            } else {
                None
            },
        }
    }
}

/// The documents of a quorum: the main document, if there is one, and the
/// key shards, each marked as forged unless its signature verifies.
pub open spec fn documents_of(
    main: Option<MainDocumentView>,
    shards: Seq<KeyShardView>,
) -> Seq<TypeView> {
    (match main {
        Some(m) => seq![classify_main(m)],
        None => Seq::empty(),
    }) + shards.map_values(|k: KeyShardView| classify_shard(k))
}

/// Whether the key shards say one length of the secret.
pub open spec fn same_secret_length(shards: Seq<KeyShardView>) -> bool {
    forall|i: int|
        0 <= i < shards.len() ==> (#[trigger] shards[i]).inner.shard.secret_len
            == shards[0].inner.shard.secret_len
}

/// Why the documents are no quorum, if they are none: they are not of one
/// backup; or one of them is forged; or there is a main document, and it
/// asks for another number of key shards than there are; or the first
/// document that was handed in, which may be gone by now, said another
/// quorum size than these; or the key shards say different lengths of the
/// secret.
pub open spec fn validate_error(
    size: Option<u32>,
    main: Option<MainDocumentView>,
    shards: Seq<KeyShardView>,
) -> Option<Inconsistency> {
    let documents = documents_of(main, shards);
    if groups_of(documents).len() != 1 {
        Some(Inconsistency::Groups)
    } else if exists|i: int| 0 <= i < documents.len() && is_forged(#[trigger] documents[i]) {
        Some(Inconsistency::Forged)
    } else if main matches Some(m) && m.inner.meta.quorum_size != shards.len() {
        Some(
            Inconsistency::QuorumSize {
                needed: main.unwrap().inner.meta.quorum_size,
                found: shards.len() as usize,
            },
        )
    } else if size matches Some(s) && s != group_of(documents[0]).quorum_size {
        Some(Inconsistency::Identity)
    } else if !same_secret_length(shards) {
        Some(Inconsistency::Identity)
    } else {
        None
    }
}

/// A forged document is refused: where the signature of the main document
/// or of one of the key shards does not verify, the documents are no
/// quorum, and the document stands among them marked as forged.
pub proof fn lemma_forged_is_refused(
    size: Option<u32>,
    main: Option<MainDocumentView>,
    shards: Seq<KeyShardView>,
)
    requires
        (main.is_some() && !main_genuine(main.unwrap())) || exists|i: int|
            0 <= i < shards.len() && !shard_genuine(#[trigger] shards[i]),
    ensures
        validate_error(size, main, shards) is Some,
        occurs_forged(documents_of(main, shards)),
{
    let documents = documents_of(main, shards);
    let offset: int = if main.is_some() {
        1
    } else {
        0
    };
    if main.is_some() && !main_genuine(main.unwrap()) {
        assert(documents[0] == classify_main(main.unwrap()));
        assert(is_forged(documents[0]));
    } else {
        let i = choose|i: int| 0 <= i < shards.len() && !shard_genuine(#[trigger] shards[i]);
        assert(documents[offset + i] == classify_shard(shards[i]));
        assert(is_forged(documents[offset + i]));
    }
}

/// Whether one of the documents is marked as forged.
pub open spec fn occurs_forged(items: Seq<TypeView>) -> bool {
    exists|i: int| 0 <= i < items.len() && is_forged(#[trigger] items[i])
}

impl Default for UntrustedQuorum {
    fn default() -> (q: UntrustedQuorum)
        ensures
            q.size() is None,
            q.document() is None,
            q.shards().len() == 0,
            no_shard_twice(q.shards()),
    {
        UntrustedQuorum::new()
    }
}

impl UntrustedQuorum {
    /// The quorum size that the first document said.
    pub closed spec fn size(&self) -> Option<u32> {
        self.untrusted_quorum_size
    }

    /// The main document.
    pub closed spec fn document(&self) -> Option<MainDocumentView> {
        match self.untrusted_main_document {
            Some(m) => Some(m@),
            None => None,
        }
    }

    /// The key shards.
    pub closed spec fn shards(&self) -> Seq<KeyShardView> {
        shard_views(self.untrusted_shards@)
    }

    /// A quorum without documents.
    pub fn new() -> (q: UntrustedQuorum)
        ensures
            q.size() is None,
            q.document() is None,
            q.shards().len() == 0,
            no_shard_twice(q.shards()),
    {
        UntrustedQuorum {
            untrusted_quorum_size: None,
            untrusted_main_document: None,
            untrusted_shards: Vec::new(),
        }
    }

    /// The quorum size that the first document said.
    pub fn quorum_size(&self) -> (size: Option<u32>)
        ensures
            size == self.size(),
    {
        self.untrusted_quorum_size
    }

    /// Adds a key shard. It takes the place of the key shard that is the
    /// same one to the quorum, if there is one, so that no key shard comes
    /// to stand twice.
    #[verifier::rlimit(40)]
    pub fn push_shard(&mut self, shard: KeyShard)
        ensures
            no_shard_twice(old(self).shards()) ==> no_shard_twice(final(self).shards()),
            final(self).document() == old(self).document(),
            final(self).size() == (match old(self).size() {
                Some(size) => Some(size),
                None => Some(shard@.inner.shard.threshold),
            }),
            final(self).shards() == (match find_shard(
                old(self).shards(),
                shard@,
                old(self).shards().len(),
            ) {
                Some(i) => old(self).shards().update(i, shard@),
                None => old(self).shards().push(shard@),
            }),
    {
        if self.untrusted_quorum_size.is_none() {
            self.untrusted_quorum_size = Some(shard.quorum_size());
        }
        let group = GroupId::of_key_shard(&shard);
        let id = shard.id();
        let n = self.untrusted_shards.len();
        let ghost before = shard_views(self.untrusted_shards@);
        let mut found: Option<usize> = None;
        for i in 0..n
            invariant
                n == self.untrusted_shards@.len(),
                before == shard_views(self.untrusted_shards@),
                group@ == group_of_shard(shard@),
                id@ == shard_id(shard@.inner.shard.x),
                found matches Some(j) ==> j < i,
                (match found {
                    Some(j) => Some(j as int),
                    None => None,
                }) == find_shard(before, shard@, i as nat),
        {
            if found.is_none() {
                let other = &self.untrusted_shards[i];
                proof {
                    assert(before[i as int] == other@);
                }
                if GroupId::of_key_shard(other).same(&group) && other.id() == id {
                    found = Some(i);
                }
            }
        }
        let ghost added = shard@;
        proof {
            lemma_find_shard(before, added, n as nat);
        }
        match found {
            Some(i) => {
                self.untrusted_shards.set(i, shard);
                assert(shard_views(self.untrusted_shards@) =~= before.update(i as int, added));
                proof {
                    let after = before.update(i as int, added);
                    if no_shard_twice(before) {
                        assert forall|a: int, b: int| 0 <= a < b < after.len() implies !same_shard(
                            #[trigger] after[a],
                            #[trigger] after[b],
                        ) by {
                            if a == i {
                                assert(!same_shard(before[a], before[b]));
                            } else if b == i {
                                assert(!same_shard(before[a], before[b]));
                            } else {
                                assert(!same_shard(before[a], before[b]));
                            }
                        }
                    }
                }
            },
            None => {
                self.untrusted_shards.push(shard);
                assert(shard_views(self.untrusted_shards@) =~= before.push(added));
                proof {
                    let after = before.push(added);
                    if no_shard_twice(before) {
                        assert forall|a: int, b: int| 0 <= a < b < after.len() implies !same_shard(
                            #[trigger] after[a],
                            #[trigger] after[b],
                        ) by {
                            if b < before.len() {
                                assert(!same_shard(before[a], before[b]));
                            } else {
                                assert(!same_shard(before[a], added));
                            }
                        }
                    }
                }
            },
        }
    }

    /// Sets the main document.
    pub fn main_document(&mut self, main: MainDocument)
        ensures
            final(self).document() == Some(main@),
            final(self).shards() == old(self).shards(),
            final(self).size() == (match old(self).size() {
                Some(size) => Some(size),
                None => Some(main@.inner.meta.quorum_size),
            }),
    {
        if self.untrusted_quorum_size.is_none() {
            self.untrusted_quorum_size = Some(main.quorum_size());
        }
        self.untrusted_main_document = Some(main);
    }

    /// The key shards.
    pub fn untrusted_shards(&self) -> (shards: &Vec<KeyShard>)
        ensures
            shard_views(shards@) == self.shards(),
    {
        &self.untrusted_shards
    }

    /// The number of key shards.
    pub fn num_untrusted_shards(&self) -> (n: usize)
        ensures
            n == self.shards().len(),
    {
        self.untrusted_shards.len()
    }

    /// Groups the documents by what they say of their backup.
    #[verifier::rlimit(40)]
    fn group(&self) -> (groups: Vec<Vec<Type>>)
        ensures
            group_views(groups@) == groups_of(documents_of(self.document(), self.shards())),
    {
        let mut documents: Vec<Type> = Vec::new();
        match &self.untrusted_main_document {
            Some(main) => {
                documents.push(Type::from_main_document(main.clone()));
            },
            None => {},
        }
        let ghost head = type_views(documents@);
        let n = self.untrusted_shards.len();
        for i in 0..n
            invariant
                n == self.untrusted_shards@.len(),
                type_views(documents@) == head + self.shards().take(i as int).map_values(
                    |k: KeyShardView| classify_shard(k),
                ),
        {
            let shard = self.untrusted_shards[i].clone();
            proof {
                let f = |k: KeyShardView| classify_shard(k);
                let now = self.shards().take(i as int);
                let next = self.shards().take(i + 1);
                assert(next =~= now.push(self.shards()[i as int]));
                assert(next.map_values(f) =~= now.map_values(f).push(classify_shard(shard@)));
                assert(type_views(documents@.push(Type::KeyShard(shard))).len() == documents@.len()
                    + 1);
            }
            let document = Type::from_key_shard(shard);
            proof {
                assert(type_views(documents@.push(document)) =~= type_views(documents@).push(
                    document@,
                ));
            }
            documents.push(document);
        }
        proof {
            assert(self.shards().take(n as int) =~= self.shards());
            assert(type_views(documents@) =~= documents_of(self.document(), self.shards()));
        }
        let ghost all = type_views(documents@);
        let mut groups: Vec<Vec<Type>> = Vec::new();
        let total = documents.len();
        proof {
            assert(all.take(0) =~= Seq::<TypeView>::empty());
        }
        for d in 0..total
            invariant
                total == documents@.len(),
                all == type_views(documents@),
                group_views(groups@) == groups_of(all.take(d as int)),
        {
            let document = documents[d].clone();
            let id = GroupId::of(&document);
            let ghost before = group_views(groups@);
            proof {
                lemma_groups_of(all.take(d as int));
                assert(all.take(d + 1).drop_last() =~= all.take(d as int));
                assert(all.take(d + 1).last() == document@);
            }
            let count = groups.len();
            let mut at: usize = count;
            for g in 0..count
                invariant
                    count == groups@.len(),
                    before == group_views(groups@),
                    grouped(before),
                    id@ == group_of(document@),
                    at <= count,
                    at < count ==> at < g && group_of(before[at as int][0]) == group_of(document@),
                    forall|h: int|
                        0 <= h < g && h < at ==> group_of(#[trigger] before[h][0]) != group_of(
                            document@,
                        ),
            {
                if at == count {
                    proof {
                        assert(before[g as int].len() > 0);
                        assert(before[g as int] == type_views(groups@[g as int]@));
                        assert(before[g as int][0] == groups@[g as int]@[0]@);
                    }
                    if GroupId::of(&groups[g][0]).same(&id) {
                        at = g;
                    }
                }
            }
            proof {
                lemma_place_from(before, document@, at as nat);
            }
            if at < count {
                let mut members = groups.remove(at);
                let ghost old_members = type_views(members@);
                members.push(document);
                proof {
                    assert(type_views(members@) =~= old_members.push(document@));
                }
                groups.insert(at, members);
                proof {
                    assert(group_views(groups@) =~= before.update(
                        at as int,
                        before[at as int].push(document@),
                    ));
                }
            } else {
                let mut members: Vec<Type> = Vec::new();
                members.push(document);
                proof {
                    assert(type_views(members@) =~= seq![document@]);
                }
                groups.push(members);
                proof {
                    assert(group_views(groups@) =~= before.push(seq![document@]));
                }
            }
        }
        proof {
            assert(all.take(total as int) =~= all);
        }
        groups
    }
}

/// Where none of the first `at` groups takes `item`, placing it goes on
/// from the group `at`.
proof fn lemma_place_from(groups: Seq<Seq<TypeView>>, item: TypeView, at: nat)
    requires
        at <= groups.len(),
        forall|h: int| 0 <= h < at ==> group_of(#[trigger] groups[h][0]) != group_of(item),
    ensures
        place(groups, item, 0) == place(groups, item, at),
    decreases at,
{
    if at > 0 {
        lemma_place_from(groups, item, (at - 1) as nat);
    }
}

/// The kind of shard expansion being requested in `Quorum::new_shard`.
#[derive(Debug)]
pub enum NewShardKind {
    /// Create a new shard with a random `ShardId` (x-value).
    NewShard,
    /// Re-create the shard with the provided `ShardId`.
    ExistingShard(String),
}

/// The shards of key shards.
pub open spec fn shard_parts(shards: Seq<KeyShardView>) -> Seq<ShardView> {
    shards.map_values(|k: KeyShardView| k.inner.shard)
}

/// The shard secret that the key shards share, or why they share none.
pub open spec fn shared_secret(shards: Seq<KeyShardView>) -> Result<ShardSecretView, Error> {
    let parts = shard_parts(shards);
    match recover_error(parts) {
        Some(e) => Err(Error::Shamir(e)),
        None => match whole(
            parse_shard_secret(recovered_secret(parts.take(parts[0].threshold as int))),
        ) {
            Ok(secret) => Ok(secret),
            Err(e) => Err(Error::ShardSecretDecode(e)),
        },
    }
}

/// What the key shards recover of the main document: its plaintext, or why
/// they recover none.
pub open spec fn recover_document_spec(
    main: Option<MainDocumentView>,
    shards: Seq<KeyShardView>,
    id_public_key: Seq<u8>,
) -> Result<Seq<u8>, Error> {
    match main {
        None => Err(Error::MissingCapability("no main document in quorum -- cannot recover")),
        Some(m) => match shared_secret(shards) {
            Err(e) => Err(e),
            Ok(secret) => if secret.id_keypair matches Some(key) && ed25519_public_key(key)
                != id_public_key {
                Err(Error::InvariantViolation("private key doesn't match quorum public key"))
            } else if m.inner.nonce.len() != CHACHAPOLY_NONCE_LENGTH {
                Err(Error::AeadDecryption)
            } else {
                match chacha20poly1305_open(
                    secret.doc_key,
                    m.inner.nonce,
                    aad_of(m.inner.meta, id_public_key),
                    m.inner.ciphertext,
                ) {
                    Some(plaintext) => Ok(plaintext),
                    None => Err(Error::AeadDecryption),
                }
            },
        },
    }
}

/// Whether `secret` is what the main document holds for the key shards:
/// they share a shard secret whose secret key, if it has one, is that of
/// the public key, and under its key the ciphertext of the main document
/// is `secret` sealed with the nonce and the associated data of the main
/// document.
pub open spec fn holds_secret(
    main: MainDocumentView,
    shards: Seq<KeyShardView>,
    id_public_key: Seq<u8>,
    secret: Seq<u8>,
) -> bool {
    &&& shared_secret(shards) matches Ok(shared)
    &&& !(shared.id_keypair matches Some(key) && ed25519_public_key(key) != id_public_key)
    &&& main.inner.nonce.len() == CHACHAPOLY_NONCE_LENGTH
    &&& Some(main.inner.ciphertext) == chacha20poly1305_seal(
        shared.doc_key,
        main.inner.nonce,
        aad_of(main.inner.meta, id_public_key),
        secret,
    )
}

/// The key shard at `x` that a quorum mints with the secret key `key`.
pub open spec fn minted(
    version: u32,
    doc_chksum: MultihashView,
    shards: Seq<KeyShardView>,
    key: Seq<u8>,
    x: u32,
) -> KeyShardView {
    let parts = shard_parts(shards);
    let inner = KeyShardBuilderView {
        version,
        doc_chksum,
        shard: interpolated_shard(parts.take(parts[0].threshold as int), x),
    };
    KeyShardView {
        inner,
        identity: crate::v0::IdentityView {
            id_public_key: ed25519_public_key(key),
            id_signature: ed25519_signature(
                key,
                signable(key_shard_builder_wire(inner), ed25519_public_key(key)),
            ),
        },
    }
}

/// The secret key with which a quorum signs new key shards, or why it has
/// none: the key shards share no shard secret, or a sealed one, or one whose
/// secret key is not that of the public key of the quorum.
pub open spec fn signing_key(shards: Seq<KeyShardView>, id_public_key: Seq<u8>) -> Result<
    Seq<u8>,
    Error,
> {
    match shared_secret(shards) {
        Err(e) => Err(e),
        Ok(secret) => match secret.id_keypair {
            None => Err(
                Error::MissingCapability("document is sealed -- no new key shards allowed"),
            ),
            Some(key) => if ed25519_public_key(key) != id_public_key {
                Err(
                    Error::InvariantViolation(
                        "id_secret_key doesn't match expected id_public_key",
                    ),
                )
            } else {
                Ok(key)
            },
        },
    }
}

/// The x at which a shard with the identifier `id` stands, or why there is
/// none: the identifier names none, or zero.
pub open spec fn requested_x(id: Seq<char>) -> Result<u32, Error> {
    match parse_id_spec(id) {
        Err(e) => Err(Error::ShardIdDecode(e)),
        Ok(x) => if x.0 == 0 {
            Err(
                Error::InvariantViolation(
                    "requested shard id has x value of 0 -- refusing to create",
                ),
            )
        } else {
            Ok(x.0)
        },
    }
}

/// Documents of one backup whose signatures verify: at most one main
/// document, and key shards that agree with it and with each other.
#[derive(Debug)]
pub struct Quorum {
    main_document: Option<MainDocument>,
    shards: Vec<KeyShard>,
    // Cached consensus information.
    version: u32,
    id_public_key: Vec<u8>,
    doc_chksum: Multihash,
    // Lazy-initialised dealer, reconstructed from key shards.
    dealer: Option<Dealer>,
}

impl Quorum {
    /// The main document.
    pub closed spec fn document(&self) -> Option<MainDocumentView> {
        match self.main_document {
            Some(m) => Some(m@),
            None => None,
        }
    }

    /// The key shards.
    pub closed spec fn shards(&self) -> Seq<KeyShardView> {
        shard_views(self.shards@)
    }

    /// The version that the documents agree on.
    pub closed spec fn version(&self) -> u32 {
        self.version
    }

    /// The public key that the documents agree on.
    pub closed spec fn public_key(&self) -> Seq<u8> {
        self.id_public_key@
    }

    /// The checksum of the main document that the documents agree on.
    pub closed spec fn checksum(&self) -> MultihashView {
        self.doc_chksum@
    }

    /// What the documents of a quorum agree on.
    pub open spec fn agreed(&self) -> GroupIdView {
        group_of(documents_of(self.document(), self.shards())[0])
    }

    /// The documents are of one backup and none is forged, what is cached
    /// of them is what they say, and the dealer, if it was recovered yet,
    /// is the one that the key shards recover.
    pub closed spec fn wf(&self) -> bool {
        let documents = documents_of(self.document(), self.shards());
        &&& documents.len() > 0
        &&& forall|i: int|
            0 <= i < documents.len() ==> !is_forged(#[trigger] documents[i]) && group_of(
                documents[i],
            ) == group_of(documents[0])
        &&& self.version == group_of(documents[0]).version
        &&& self.id_public_key@ == group_of(documents[0]).id_public_key
        &&& self.doc_chksum@ == group_of(documents[0]).doc_chksum
        &&& self.id_public_key@.len() == PUBLIC_KEY_LENGTH
        &&& same_secret_length(shard_views(self.shards@))
        &&& self.dealer matches Some(d) ==> {
            let parts = shard_parts(shard_views(self.shards@));
            &&& recover_error(parts) is None
            &&& d.wf()
            &&& !d.is_fresh()
            &&& d.points() == parts.take(parts[0].threshold as int)
        }
    }

    /// What `wf` says of what the documents agree on.
    pub proof fn lemma_wf(&self)
        requires
            self.wf(),
        ensures
            self.version() == self.agreed().version,
            self.public_key() == self.agreed().id_public_key,
            self.checksum() == self.agreed().doc_chksum,
            self.document().is_some() || self.shards().len() > 0,
            same_secret_length(self.shards()),
            forall|i: int|
                0 <= i < self.shards().len() ==> group_of_shard(#[trigger] self.shards()[i])
                    == self.agreed(),
    {
        let documents = documents_of(self.document(), self.shards());
        let offset: int = if self.document().is_some() {
            1
        } else {
            0
        };
        assert forall|i: int| 0 <= i < self.shards().len() implies group_of_shard(
            #[trigger] self.shards()[i],
        ) == self.agreed() by {
            assert(documents[offset + i] == classify_shard(self.shards()[i]));
            assert(group_of(documents[offset + i]) == group_of(documents[0]));
        }
    }

    /// Whether the quorum holds the main document.
    pub fn has_main_document(&self) -> (b: bool)
        ensures
            b == self.document().is_some(),
    {
        self.main_document.is_some()
    }

    fn shard_list(&self) -> (parts: Vec<Shard>)
        ensures
            views(parts@) == shard_parts(self.shards()),
    {
        let mut parts: Vec<Shard> = Vec::new();
        let n = self.shards.len();
        for i in 0..n
            invariant
                n == self.shards@.len(),
                parts@.len() == i,
                forall|j: int| 0 <= j < i ==> (#[trigger] parts@[j])@ == self.shards@[j]@.inner.shard,
        {
            parts.push(self.shards[i].inner.shard.clone());
        }
        proof {
            assert(views(parts@) =~= shard_parts(self.shards()));
        }
        parts
    }

    /// Recovers the plaintext of the main document.
    #[verifier::rlimit(40)]
    pub fn recover_document(&self) -> (res: Result<Vec<u8>, Error>)
        requires
            self.wf(),
        ensures
            match res {
                Ok(plaintext) => Ok::<Seq<u8>, Error>(plaintext@),
                Err(e) => Err::<Seq<u8>, Error>(e),
            } == recover_document_spec(self.document(), self.shards(), self.public_key()),
            forall|secret: Seq<u8>|
                self.document().is_some() && #[trigger] holds_secret(
                    self.document().unwrap(),
                    self.shards(),
                    self.public_key(),
                    secret,
                ) ==> (res matches Ok(plaintext) && plaintext@ == secret),
    {
        let main_document = match &self.main_document {
            Some(main) => main,
            None => {
                return Err(
                    Error::MissingCapability("no main document in quorum -- cannot recover"),
                );
            },
        };
        let shards = self.shard_list();
        let dealer = match Dealer::recover(shards.as_slice()) {
            Ok(dealer) => dealer,
            Err(e) => { return Err(Error::Shamir(e)); },
        };
        proof {
            dealer.lemma_recovered();
        }
        let wire = dealer.secret();
        let secret = match ShardSecret::from_wire(wire.as_slice()) {
            Ok(secret) => secret,
            Err(e) => { return Err(Error::ShardSecretDecode(e)); },
        };
        // Double-check that the private key agrees with the quorum's public
        // key choice.
        match &secret.id_keypair {
            Some(id_keypair) => {
                let public = ed25519_public(id_keypair.as_slice());
                if !bytes_equal(public.as_slice(), self.id_public_key.as_slice()) {
                    return Err(
                        Error::InvariantViolation("private key doesn't match quorum public key"),
                    );
                }
            },
            None => {},
        }
        // Decrypt the contents.
        if main_document.inner.nonce.len() != CHACHAPOLY_NONCE_LENGTH {
            return Err(Error::AeadDecryption);
        }
        let aad = main_document.inner.meta.aad(self.id_public_key.as_slice());
        match aead_decrypt(
            secret.doc_key.as_slice(),
            main_document.inner.nonce.as_slice(),
            aad.as_slice(),
            main_document.inner.ciphertext.as_slice(),
        ) {
            Some(plaintext) => Ok(plaintext),
            None => Err(Error::AeadDecryption),
        }
    }

    /// Mints a key shard: a new one at a random x, or the one with the
    /// given identifier. The dealer is recovered from the key shards at the
    /// first call, and kept.
    #[verifier::rlimit(40)]
    pub fn new_shard(&mut self, shard_type: NewShardKind) -> (res: Result<KeyShard, Error>)
        requires
            old(self).wf(),
        ensures
            final(self).wf(),
            final(self).document() == old(self).document(),
            final(self).shards() == old(self).shards(),
            final(self).version() == old(self).version(),
            final(self).public_key() == old(self).public_key(),
            final(self).checksum() == old(self).checksum(),
            match signing_key(old(self).shards(), old(self).public_key()) {
                Err(e) => res == Err::<KeyShard, Error>(e),
                Ok(key) => match shard_type {
                    NewShardKind::NewShard => res matches Ok(shard) && shard@.inner.shard.x != 0
                        && shard@ == minted(
                        old(self).version(),
                        old(self).checksum(),
                        old(self).shards(),
                        key,
                        shard@.inner.shard.x,
                    ),
                    NewShardKind::ExistingShard(id) => match requested_x(id@) {
                        Err(e) => res == Err::<KeyShard, Error>(e),
                        Ok(x) => res matches Ok(shard) && shard@ == minted(
                            old(self).version(),
                            old(self).checksum(),
                            old(self).shards(),
                            key,
                            x,
                        ),
                    },
                },
            },
    {
        // Conduct a complete recovery.
        if self.dealer.is_none() {
            let shards = self.shard_list();
            match Dealer::recover(shards.as_slice()) {
                Ok(dealer) => {
                    self.dealer = Some(dealer);
                },
                Err(e) => { return Err(Error::Shamir(e)); },
            }
        }
        let dealer = self.dealer.as_ref().unwrap();
        proof {
            dealer.lemma_recovered();
        }
        let wire = dealer.secret();
        let secret = match ShardSecret::from_wire(wire.as_slice()) {
            Ok(secret) => secret,
            Err(e) => { return Err(Error::ShardSecretDecode(e)); },
        };
        // Get the private key so we can sign the new shards.
        let id_keypair = match secret.id_keypair {
            Some(id_keypair) => id_keypair,
            None => {
                return Err(
                    Error::MissingCapability("document is sealed -- no new key shards allowed"),
                );
            },
        };
        // Make sure the private key matches the expected public key.
        let id_public_key = ed25519_public(id_keypair.as_slice());
        if !bytes_equal(id_public_key.as_slice(), self.id_public_key.as_slice()) {
            return Err(
                Error::InvariantViolation("id_secret_key doesn't match expected id_public_key"),
            );
        }
        // Extend new shards.
        let shard = match shard_type {
            NewShardKind::NewShard => dealer.next_shard(),
            NewShardKind::ExistingShard(id) => {
                let x = match parse_id(id.as_str()) {
                    Ok(x) => x,
                    Err(e) => { return Err(Error::ShardIdDecode(e)); },
                };
                match dealer.shard(x) {
                    Some(shard) => shard,
                    None => {
                        return Err(
                            Error::InvariantViolation(
                                "requested shard id has x value of 0 -- refusing to create",
                            ),
                        );
                    },
                }
            },
        };
        Ok(
            KeyShardBuilder {
                version: self.version,
                doc_chksum: self.doc_chksum.clone(),
                shard,
            }.sign(id_keypair.as_slice()),
        )
    }
}

impl UntrustedQuorum {
    /// Tells whether the documents are a quorum: documents of one backup,
    /// none of them forged, and with a main document as many key shards as
    /// it asks for.
    #[verifier::rlimit(40)]
    pub fn validate(self) -> (res: Result<Quorum, InconsistentQuorumError>)
        ensures
            match validate_error(self.size(), self.document(), self.shards()) {
                Some(kind) => res matches Err(e) && e.reason() == kind && e.groups() == groups_of(
                    documents_of(self.document(), self.shards()),
                ),
                None => res matches Ok(quorum) && quorum.wf() && quorum.document()
                    == self.document() && quorum.shards() == self.shards(),
            },
    {
        let ghost size = self.size();
        let ghost main_view = self.document();
        let ghost shard_list = self.shards();
        let ghost all = documents_of(main_view, shard_list);
        let ghost offset: int = if main_view.is_some() {
            1
        } else {
            0
        };
        let groups = self.group();
        proof {
            lemma_single_group(all);
        }
        // Must only have one grouping of documents.
        if groups.len() != 1 {
            return Err(
                InconsistentQuorumError { kind: Inconsistency::Groups, groups: Grouping(groups) },
            );
        }
        proof {
            assert(group_views(groups@)[0] == type_views(groups@[0]@));
            assert(all.len() == offset + shard_list.len());
        }
        let total = groups[0].len();
        // Must not contain any forged documents.
        for i in 0..total
            invariant
                groups@.len() == 1,
                total == groups@[0]@.len(),
                type_views(groups@[0]@) == all,
                size == self.size(),
                main_view == self.document(),
                shard_list == self.shards(),
                all == documents_of(main_view, shard_list),
                group_views(groups@) == groups_of(all),
                forall|j: int| 0 <= j < i ==> !is_forged(#[trigger] all[j]),
        {
            proof {
                assert(all[i as int] == groups@[0]@[i as int]@);
                if is_forged(all[i as int]) {
                    assert(validate_error(size, main_view, shard_list) == Some(
                        Inconsistency::Forged,
                    ));
                }
            }
            match &groups[0][i] {
                Type::ForgedMainDocument(_) => {
                    return Err(
                        InconsistentQuorumError {
                            kind: Inconsistency::Forged,
                            groups: Grouping(groups),
                        },
                    );
                },
                Type::ForgedKeyShard(_) => {
                    return Err(
                        InconsistentQuorumError {
                            kind: Inconsistency::Forged,
                            groups: Grouping(groups),
                        },
                    );
                },
                _ => {},
            }
        }
        proof {
            if main_view.is_some() {
                assert(all[0] == classify_main(main_view.unwrap()));
            }
            assert forall|j: int| 0 <= j < shard_list.len() implies all[offset + j]
                == TypeView::KeyShard(shard_list[j]) by {
                assert(all[offset + j] == classify_shard(shard_list[j]));
                assert(!is_forged(all[offset + j]));
            }
        }
        // Extract the main document and the key shards from the grouping.
        let mut mains: Vec<MainDocument> = Vec::new();
        let mut shards: Vec<KeyShard> = Vec::new();
        for i in 0..total
            invariant
                groups@.len() == 1,
                total == groups@[0]@.len(),
                type_views(groups@[0]@) == all,
                all.len() == offset + shard_list.len(),
                offset == (if main_view.is_some() {
                    1int
                } else {
                    0int
                }),
                main_view matches Some(m) ==> all[0] == TypeView::MainDocument(m),
                forall|j: int|
                    0 <= j < shard_list.len() ==> all[offset + j] == TypeView::KeyShard(
                        shard_list[j],
                    ),
                mains@.len() == (if i >= 1 && offset == 1 {
                    1int
                } else {
                    0int
                }),
                mains@.len() == 1 ==> Some(mains@[0]@) == main_view,
                shards@.len() == (if i >= offset {
                    i - offset
                } else {
                    0
                }),
                forall|j: int| 0 <= j < shards@.len() ==> (#[trigger] shards@[j])@ == shard_list[j],
        {
            proof {
                assert(all[i as int] == groups@[0]@[i as int]@);
                if i >= offset {
                    assert(all[offset + (i - offset)] == TypeView::KeyShard(
                        shard_list[i - offset],
                    ));
                }
            }
            match &groups[0][i] {
                Type::MainDocument(main) => {
                    mains.push(main.clone());
                },
                Type::KeyShard(shard) => {
                    shards.push(shard.clone());
                },
                _ => {},
            }
        }
        proof {
            assert(shard_views(shards@) =~= shard_list);
        }
        if mains.len() > 1 {
            return Err(
                InconsistentQuorumError {
                    kind: Inconsistency::MainDocuments,
                    groups: Grouping(groups),
                },
            );
        }
        let main_document: Option<MainDocument> = if mains.len() == 1 {
            Some(mains[0].clone())
        } else {
            None
        };
        // Collect the Quorum's id_public_key and doc_chksum, then
        // double-check the values match everything else. If we have no main
        // document, just use the first shard's values.
        let consensus = match &main_document {
            Some(main) => GroupId::of_main_document(main),
            None => {
                if shards.len() == 0 {
                    return Err(
                        InconsistentQuorumError {
                            kind: Inconsistency::Empty,
                            groups: Grouping(groups),
                        },
                    );
                }
                GroupId::of_key_shard(&shards[0])
            },
        };
        proof {
            assert(consensus@ == group_of(all[0])) by {
                if main_view.is_none() {
                    assert(all[offset + 0] == TypeView::KeyShard(shard_list[0]));
                }
            }
            assert forall|j: int| 0 <= j < shard_list.len() implies group_of_shard(shard_list[j])
                == consensus@ by {
                assert(group_of(all[offset + j]) == group_of(all[0]));
            }
        }
        match &main_document {
            Some(main) => {
                if main.quorum_size() as usize != shards.len() {
                    return Err(
                        InconsistentQuorumError {
                            kind: Inconsistency::QuorumSize {
                                needed: main.quorum_size(),
                                found: shards.len(),
                            },
                            groups: Grouping(groups),
                        },
                    );
                }
                let size_differs = match self.untrusted_quorum_size {
                    Some(s) => s != main.quorum_size(),
                    None => false,
                };
                if !GroupId::of_main_document(main).same(&consensus) || size_differs {
                    return Err(
                        InconsistentQuorumError {
                            kind: Inconsistency::Identity,
                            groups: Grouping(groups),
                        },
                    );
                }
            },
            None => {},
        }
        let count = shards.len();
        for i in 0..count
            invariant
                count == shards@.len(),
                shard_views(shards@) == shard_list,
                size == self.untrusted_quorum_size,
                size == self.size(),
                main_view == self.document(),
                shard_list == self.shards(),
                all.len() > 0,
                all == documents_of(main_view, shard_list),
                group_views(groups@) == groups_of(all),
                groups_of(all).len() == 1,
                forall|j: int| 0 <= j < all.len() ==> !is_forged(#[trigger] all[j]),
                main_view matches Some(m) ==> m.inner.meta.quorum_size == shard_list.len(),
                main_view.is_some() ==> !(size matches Some(s) && s != consensus@.quorum_size),
                consensus@ == group_of(all[0]),
                forall|j: int|
                    0 <= j < shard_list.len() ==> group_of_shard(#[trigger] shard_list[j])
                        == consensus@,
                i > 0 ==> !(size matches Some(s) && s != consensus@.quorum_size),
                forall|j: int|
                    0 <= j < i ==> (#[trigger] shard_list[j]).inner.shard.secret_len
                        == shard_list[0].inner.shard.secret_len,
        {
            let shard = &shards[i];
            proof {
                assert(shard_list[i as int] == shard@);
                assert(shard_list[0] == shards@[0]@);
            }
            let size_differs = match self.untrusted_quorum_size {
                Some(s) => s != shard.quorum_size(),
                None => false,
            };
            let length_differs = shard.inner.shard.secret_len != shards[0].inner.shard.secret_len;
            if !GroupId::of_key_shard(shard).same(&consensus) || size_differs || length_differs {
                return Err(
                    InconsistentQuorumError {
                        kind: Inconsistency::Identity,
                        groups: Grouping(groups),
                    },
                );
            }
        }
        proof {
            assert(!(size matches Some(s) && s != consensus@.quorum_size)) by {
                if main_view.is_none() {
                    assert(count > 0);
                }
            }
            assert forall|i: int| 0 <= i < all.len() implies group_of(#[trigger] all[i])
                == group_of(all[0]) by {}
            if main_view.is_some() {
                assert(all[0] == TypeView::MainDocument(main_view.unwrap()));
                assert(main_genuine(main_view.unwrap()));
            } else {
                assert(all[offset + 0] == TypeView::KeyShard(shard_list[0]));
                assert(shard_genuine(shard_list[0]));
            }
        }
        Ok(
            Quorum {
                main_document,
                shards,
                // All shards must have agreed on these properties --
                // otherwise the grouping checks above would've caused an
                // error.
                version: consensus.version,
                id_public_key: consensus.id_public_key,
                doc_chksum: consensus.doc_chksum,
                dealer: None,
            },
        )
    }
}

/// Whether `shards` are a quorum of key shards of `backup`: as many as its
/// quorum size, each the key shard of the backup at its x, and at distinct
/// x other than zero.
pub open spec fn quorum_of(backup: Backup, shards: Seq<KeyShardView>) -> bool {
    &&& shards.len() == backup.dealer().threshold_value()
    &&& distinct(xs_of(shard_parts(shards)))
    &&& forall|i: int|
        0 <= i < shards.len() ==> (#[trigger] shards[i]).inner.shard.x != 0 && shards[i]
            == backup.key_shard_at(shards[i].inner.shard.x)
}

proof fn lemma_quorum_shares_the_secret(backup: Backup, shards: Seq<KeyShardView>)
    requires
        backup.wf(),
        quorum_of(backup, shards),
    ensures
        shards.len() >= 1,
        recover_error(shard_parts(shards)) is None,
        recovered_secret(
            shard_parts(shards).take(shard_parts(shards)[0].threshold as int),
        ) == backup.dealer().secret_value(),
        forall|x: u32|
            interpolated_shard(
                shard_parts(shards).take(shard_parts(shards)[0].threshold as int),
                x,
            ) == backup.dealer().shard_at(x),
{
    let dealer = backup.dealer();
    let parts = shard_parts(shards);
    backup.lemma_wf();
    dealer.lemma_wf();
    assert forall|i: int| 0 <= i < parts.len() implies (#[trigger] parts[i]) == dealer.shard_at(
        parts[i].x,
    ) && parts[i].x != 0 by {
        assert(shards[i] == backup.key_shard_at(shards[i].inner.shard.x));
    }
    assert(Dealer::quorum(parts, dealer.threshold_value(), dealer.secret_length())) by {
        assert forall|i: int| 0 <= i < parts.len() implies {
            &&& (#[trigger] parts[i]).x != 0
            &&& parts[i].threshold == dealer.threshold_value()
            &&& parts[i].secret_len == dealer.secret_length()
            &&& parts[i].ys.len() == dealer.chunks()
        } by {
            assert(parts[i] == dealer.shard_at(parts[i].x));
        }
    }
    Dealer::lemma_quorum_recovers(parts, dealer.threshold_value(), dealer.secret_length());
    assert forall|x: u32|
        interpolated_shard(parts.take(parts[0].threshold as int), x) == dealer.shard_at(x) by {
        dealer.lemma_recovery_agrees(parts, x);
    }
    dealer.lemma_recovery_agrees(parts, 0);
}

/// A quorum recovers what was backed up: the main document of a backup
/// holds the secret of the backup for every quorum of its key shards, so
/// that `Quorum::recover_document` returns the secret. Recovery opens the
/// ciphertext with the key, the nonce and the associated data under which
/// the secret was sealed.
pub proof fn lemma_quorum_recovers_backup(
    backup: Backup,
    quorum_size: u32,
    secret: Seq<u8>,
    sealed: bool,
    shards: Seq<KeyShardView>,
)
    requires
        backup.backs_up(quorum_size, secret, sealed),
        quorum_of(backup, shards),
    ensures
        holds_secret(backup.document(), shards, backup.document().identity.id_public_key, secret),
        ({
            let main = backup.document();
            let id_public_key = main.identity.id_public_key;
            let shared = whole(parse_shard_secret(backup.dealer().secret_value())).unwrap();
            let aad = aad_of(main.inner.meta, id_public_key);
            recover_document_spec(Some(main), shards, id_public_key) == (match chacha20poly1305_open(
                shared.doc_key,
                main.inner.nonce,
                aad,
                main.inner.ciphertext,
            ) {
                Some(plaintext) => Ok::<Seq<u8>, Error>(plaintext),
                None => Err::<Seq<u8>, Error>(Error::AeadDecryption),
            })
        }),
{
    lemma_quorum_shares_the_secret(backup, shards);
    backup.lemma_wf();
    let shared = whole(parse_shard_secret(backup.dealer().secret_value())).unwrap();
    assert(shared_secret(shards) == Ok::<ShardSecretView, Error>(shared));
}

/// A quorum mints the key shards of its backup: with a quorum of key
/// shards of a backup that is not sealed, the key shard that is minted at
/// an x is the key shard of the backup at that x, whichever quorum it is.
/// With a quorum of a sealed backup none is minted.
pub proof fn lemma_quorum_mints_key_shards(
    backup: Backup,
    quorum_size: u32,
    secret: Seq<u8>,
    sealed: bool,
    shards: Seq<KeyShardView>,
    x: u32,
)
    requires
        backup.backs_up(quorum_size, secret, sealed),
        quorum_of(backup, shards),
    ensures
        sealed ==> signing_key(shards, backup.document().identity.id_public_key) == Err::<
            Seq<u8>,
            Error,
        >(Error::MissingCapability("document is sealed -- no new key shards allowed")),
        !sealed ==> signing_key(shards, backup.document().identity.id_public_key) == Ok::<
            Seq<u8>,
            Error,
        >(backup.secret_key()),
        !sealed ==> minted(
            group_of_shard(shards[0]).version,
            group_of_shard(shards[0]).doc_chksum,
            shards,
            backup.secret_key(),
            x,
        ) == backup.key_shard_at(x),
{
    lemma_quorum_shares_the_secret(backup, shards);
    assert(shards[0] == backup.key_shard_at(shards[0].inner.shard.x));
}

} // verus!
