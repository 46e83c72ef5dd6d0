//! What holds of the build and of the service taken together.
//!
//! Merging accumulators is associative and agrees with storing the files one
//! after the other, so the workers' results can be folded in any grouping.
//! The regions recorded tile the blob. What is stored under a path is what
//! is served under it, and neither the manifest nor the table served depends
//! on the order in which the files were stored.

use vstd::prelude::*;
use vstd::utf8::{encode_utf8, encode_utf8_decode_utf8};
use crate::bytes::lemma_lex_le_antisymmetric;
use crate::sorting::{lemma_map_preserves_multiset, path_bytes, sorted_by_path};
use crate::codec::{brotli_of, gzip_of};
use crate::worker::{
    accumulated,
    compressed,
    compressed_all,
    merged_all,
    token_of,
    worth_keeping,
    BROTLI_BUFFER_SIZE,
    BROTLI_QUALITY,
    BROTLI_WINDOW,
    AccumulatorView,
    FileView,
    ItemView,
    VariantView,
};
use crate::{
    item_in,
    items_in,
    matched,
    requested,
    resolved,
    table_of,
    ItemContent,
    VariantContent,
};

verus! {

/// Moving a variant twice moves it by the sum.
proof fn lemma_shifted_twice(item: ItemView, first: nat, second: nat)
    ensures
        item.shifted(first).shifted(second) == item.shifted(first + second),
        item.shifted(0) == item,
{
}

/// An item within a blob is, once moved, within the blob grown by as much.
proof fn lemma_shifted_within(item: ItemView, by: nat, blob_len: nat)
    requires
        item.within(blob_len),
    ensures
        item.shifted(by).within(by + blob_len),
{
}

/// Merging is associative: folding three accumulators gives the same blob
/// and the same manifest whichever two are merged first.
pub proof fn lemma_merge_associative(a: AccumulatorView, b: AccumulatorView, c: AccumulatorView)
    ensures
        a.merged(b).merged(c) == a.merged(b.merged(c)),
{
    let left = a.merged(b).merged(c);
    let right = a.merged(b.merged(c));
    assert(left.bytes =~= right.bytes);
    assert(left.items.len() == right.items.len());
    assert forall|i: int| 0 <= i < left.items.len() implies left.items[i] == right.items[i] by {
        if i >= a.items.len() + b.items.len() {
            let item = c.items[i - a.items.len() - b.items.len()];
            lemma_shifted_twice(item, b.bytes.len(), a.bytes.len());
        }
    }
    assert(left.items =~= right.items);
}

/// Merging with an empty accumulator, on either side, changes nothing.
pub proof fn lemma_merge_empty(a: AccumulatorView)
    ensures
        a.merged(AccumulatorView::empty()) == a,
        AccumulatorView::empty().merged(a) == a,
{
    let e = AccumulatorView::empty();
    assert(a.merged(e).bytes =~= a.bytes);
    assert(a.merged(e).items =~= a.items);
    assert(e.merged(a).bytes =~= a.bytes);
    assert forall|i: int| 0 <= i < a.items.len() implies e.merged(a).items[i] == a.items[i] by {
        lemma_shifted_twice(a.items[i], 0, 0);
    }
    assert(e.merged(a).items =~= a.items);
}

/// Storing a file is merging with the accumulator that holds that file
/// alone.
pub proof fn lemma_added_is_merged(acc: AccumulatorView, file: FileView)
    ensures
        acc.added(file) == acc.merged(AccumulatorView::empty().added(file)),
{
    let single = AccumulatorView::empty().added(file);
    let left = acc.added(file);
    let right = acc.merged(single);
    assert(left.bytes =~= right.bytes);
    assert(left.items =~= right.items);
}

/// Storing one run of files after another gives what merging the two runs'
/// accumulators gives.
pub proof fn lemma_accumulated_concat(first: Seq<FileView>, second: Seq<FileView>)
    ensures
        accumulated(first + second) == accumulated(first).merged(accumulated(second)),
    decreases second.len(),
{
    if second.len() == 0 {
        assert(first + second =~= first);
        lemma_merge_empty(accumulated(first));
    } else {
        let all = first + second;
        assert(all.drop_last() =~= first + second.drop_last());
        assert(all.last() == second.last());
        lemma_accumulated_concat(first, second.drop_last());
        let head = accumulated(first);
        let body = accumulated(second.drop_last());
        let single = AccumulatorView::empty().added(second.last());
        lemma_added_is_merged(head.merged(body), second.last());
        lemma_merge_associative(head, body, single);
        lemma_added_is_merged(body, second.last());
    }
}

/// However a run of files is cut into groups, storing each group on its own
/// and merging the results in turn gives what storing the whole run gives.
pub proof fn lemma_groups_merge_to_whole(groups: Seq<Seq<FileView>>)
    ensures
        merged_all(groups.map_values(|group: Seq<FileView>| accumulated(group))) == accumulated(
            groups.flatten(),
        ),
    decreases groups.len(),
{
    let parts = groups.map_values(|group: Seq<FileView>| accumulated(group));
    if groups.len() == 0 {
        assert(groups.flatten() =~= Seq::<FileView>::empty());
    } else {
        let earlier = groups.drop_last();
        lemma_groups_merge_to_whole(earlier);
        assert(parts.drop_last() =~= earlier.map_values(|group: Seq<FileView>| accumulated(group)));
        assert(groups =~= earlier.push(groups.last()));
        earlier.lemma_flatten_push(groups.last());
        lemma_accumulated_concat(earlier.flatten(), groups.last());
    }
}

/// Every region recorded while storing files ends within the blob.
pub proof fn lemma_accumulated_consistent(files: Seq<FileView>)
    ensures
        accumulated(files).consistent(),
    decreases files.len(),
{
    if files.len() > 0 {
        lemma_accumulated_consistent(files.drop_last());
        let before = accumulated(files.drop_last());
        let after = accumulated(files);
        assert forall|i: int| 0 <= i < after.items.len() implies (#[trigger] after.items[i]).within(
            after.bytes.len(),
        ) by {
            if i < before.items.len() {
                assert(before.items[i].within(before.bytes.len()));
            }
        }
    }
}

/// Merging keeps every region within the blob.
pub proof fn lemma_merged_consistent(a: AccumulatorView, b: AccumulatorView)
    requires
        a.consistent(),
        b.consistent(),
    ensures
        a.merged(b).consistent(),
{
    let m = a.merged(b);
    assert forall|i: int| 0 <= i < m.items.len() implies (#[trigger] m.items[i]).within(
        m.bytes.len(),
    ) by {
        if i < a.items.len() {
            assert(a.items[i].within(a.bytes.len()));
        } else {
            let item = b.items[i - a.items.len()];
            assert(item.within(b.bytes.len()));
            lemma_shifted_within(item, a.bytes.len(), b.bytes.len());
        }
    }
}

/// The retention rule as the manifest shows it: the item recorded for a
/// compressed file has a gzip variant exactly if the gzip stream is smaller
/// than the retention share of the plain content, and a brotli variant on the
/// same terms, each judged on its own. A variant that is there has the length
/// and the token of its stream.
pub proof fn lemma_retention_in_manifest(acc: AccumulatorView, path: Seq<char>, plain: Seq<u8>)
    ensures
        ({
            let item = acc.next_item(compressed(path, plain));
            let gzip = gzip_of(plain);
            let brotli = brotli_of(BROTLI_BUFFER_SIZE, BROTLI_QUALITY, BROTLI_WINDOW, plain);
            &&& item.gzip is Some <==> worth_keeping(gzip.len(), plain.len())
            &&& item.brotli is Some <==> worth_keeping(brotli.len(), plain.len())
            &&& item.gzip is Some ==> item.gzip->0.len == gzip.len() && item.gzip->0.etag
                == token_of(gzip)
            &&& item.brotli is Some ==> item.brotli->0.len == brotli.len() && item.brotli->0.etag
                == token_of(brotli)
            &&& item.plain.len == plain.len()
            &&& item.plain.etag == token_of(plain)
            &&& item.path == path
        }),
{
}

/// An empty file is recorded with a plain variant of no bytes and nothing
/// else, and storing it leaves the blob as it was.
pub proof fn lemma_empty_file_in_manifest(acc: AccumulatorView, path: Seq<char>)
    ensures
        ({
            let file = compressed(path, Seq::<u8>::empty());
            let item = acc.next_item(file);
            &&& item.plain.len == 0
            &&& item.plain.start == acc.bytes.len()
            &&& item.gzip is None
            &&& item.brotli is None
            &&& acc.added(file).bytes == acc.bytes
            &&& acc.added(file).items == acc.items.push(item)
        }),
{
    let file = compressed(path, Seq::<u8>::empty());
    assert(acc.added(file).bytes =~= acc.bytes);
}

/// A content as it is served once stored: under its own token.
pub open spec fn stored_variant(content: Seq<u8>) -> VariantContent {
    VariantContent { etag: token_of(content), content }
}

/// An optional content as it is served once stored.
pub open spec fn stored_optional(content: Option<Seq<u8>>) -> Option<VariantContent> {
    match content {
        Some(bytes) => Some(stored_variant(bytes)),
        None => None,
    }
}

/// A file as it is served once stored: each variant under its token.
pub open spec fn file_content(file: FileView) -> ItemContent {
    ItemContent {
        path: file.path,
        plain: stored_variant(file.plain),
        gzip: stored_optional(file.gzip),
        brotli: stored_optional(file.brotli),
    }
}

/// What an item within a blob addresses does not change when the blob grows
/// at its end.
proof fn lemma_item_in_longer(item: ItemView, blob: Seq<u8>, more: Seq<u8>)
    requires
        item.within(blob.len()),
    ensures
        item_in(item, blob + more) == item_in(item, blob),
{
    lemma_variant_in_longer(item.plain, blob, more);
    if item.gzip is Some {
        lemma_variant_in_longer(item.gzip->0, blob, more);
    }
    if item.brotli is Some {
        lemma_variant_in_longer(item.brotli->0, blob, more);
    }
}

/// The bytes of a variant within a blob do not change when the blob grows at
/// its end.
proof fn lemma_variant_in_longer(variant: VariantView, blob: Seq<u8>, more: Seq<u8>)
    requires
        variant.within(blob.len()),
    ensures
        variant.content(blob + more) == variant.content(blob),
{
    assert(variant.content(blob + more) =~= variant.content(blob));
}

/// The bytes of a variant within a blob are those of the moved variant in the
/// blob grown at its front.
proof fn lemma_variant_in_shifted(variant: VariantView, front: Seq<u8>, blob: Seq<u8>)
    requires
        variant.within(blob.len()),
    ensures
        variant.shifted(front.len()).content(front + blob) == variant.content(blob),
{
    assert(variant.shifted(front.len()).content(front + blob) =~= variant.content(blob));
}

/// What an item within a blob addresses is what the moved item addresses in
/// the blob grown at its front.
proof fn lemma_item_in_shifted(item: ItemView, front: Seq<u8>, blob: Seq<u8>)
    requires
        item.within(blob.len()),
    ensures
        item_in(item.shifted(front.len()), front + blob) == item_in(item, blob),
{
    lemma_variant_in_shifted(item.plain, front, blob);
    if item.gzip is Some {
        lemma_variant_in_shifted(item.gzip->0, front, blob);
    }
    if item.brotli is Some {
        lemma_variant_in_shifted(item.brotli->0, front, blob);
    }
}

/// What the items of a manifest address in a blob that holds all their
/// regions does not change when more bytes follow the blob, as the manifest
/// and its length do in a self-contained artifact.
pub proof fn lemma_items_in_longer(items: Seq<ItemView>, blob: Seq<u8>, more: Seq<u8>)
    requires
        forall|i: int| 0 <= i < items.len() ==> (#[trigger] items[i]).within(blob.len()),
    ensures
        items_in(items, blob + more) == items_in(items, blob),
{
    assert forall|i: int| 0 <= i < items.len() implies items_in(items, blob + more)[i] == items_in(
        items,
        blob,
    )[i] by {
        lemma_item_in_longer(items[i], blob, more);
    }
    assert(items_in(items, blob + more) =~= items_in(items, blob));
}

/// After a merge every item addresses the bytes it addressed before: the
/// merged accumulator serves what the first served, then what the second
/// served.
pub proof fn lemma_merged_content(a: AccumulatorView, b: AccumulatorView)
    requires
        a.consistent(),
        b.consistent(),
    ensures
        items_in(a.merged(b).items, a.merged(b).bytes) == items_in(a.items, a.bytes) + items_in(
            b.items,
            b.bytes,
        ),
{
    let m = a.merged(b);
    let left = items_in(m.items, m.bytes);
    let right = items_in(a.items, a.bytes) + items_in(b.items, b.bytes);
    assert(left.len() == right.len());
    assert forall|i: int| 0 <= i < left.len() implies left[i] == right[i] by {
        if i < a.items.len() {
            assert(a.items[i].within(a.bytes.len()));
            lemma_item_in_longer(a.items[i], a.bytes, b.bytes);
        } else {
            let item = b.items[i - a.items.len()];
            assert(item.within(b.bytes.len()));
            lemma_item_in_shifted(item, a.bytes, b.bytes);
        }
    }
    assert(left =~= right);
}

/// What is stored is what is served: the items recorded while storing files
/// address, in the blob, exactly the variants of those files, each under its
/// token.
pub proof fn lemma_accumulated_content(files: Seq<FileView>)
    ensures
        items_in(accumulated(files).items, accumulated(files).bytes) == files.map_values(
            |file: FileView| file_content(file),
        ),
    decreases files.len(),
{
    let acc = accumulated(files);
    let served = items_in(acc.items, acc.bytes);
    let expected = files.map_values(|file: FileView| file_content(file));
    if files.len() == 0 {
        assert(served =~= expected);
    } else {
        let file = files.last();
        let before = accumulated(files.drop_last());
        lemma_accumulated_content(files.drop_last());
        lemma_accumulated_consistent(files.drop_last());
        let single = AccumulatorView::empty().added(file);
        lemma_added_is_merged(before, file);
        let item = single.items[0];
        assert(single.consistent()) by {
            assert(item.within(single.bytes.len()));
        }
        lemma_merged_content(before, single);
        assert(item_in(item, single.bytes) == file_content(file)) by {
            assert(item.plain.content(single.bytes) =~= file.plain);
            if file.gzip is Some {
                assert(item.gzip->0.content(single.bytes) =~= file.gzip->0);
            }
            if file.brotli is Some {
                assert(item.brotli->0.content(single.bytes) =~= file.brotli->0);
            }
        }
        assert(items_in(single.items, single.bytes) =~= seq![file_content(file)]);
        assert(expected =~= files.drop_last().map_values(|file: FileView| file_content(file))
            + seq![file_content(file)]);
    }
}

/// Two paths with the same bytes are the same path.
pub proof fn lemma_encode_injective(a: Seq<char>, b: Seq<char>)
    requires
        encode_utf8(a) == encode_utf8(b),
    ensures
        a == b,
{
    encode_utf8_decode_utf8(a);
    encode_utf8_decode_utf8(b);
}

/// Whether no two different files of `items` share a path.
pub open spec fn path_determines(items: Seq<ItemContent>) -> bool {
    forall|i: int, j: int|
        0 <= i < items.len() && 0 <= j < items.len() && (#[trigger] items[i]).path == (
        #[trigger] items[j]).path ==> items[i] == items[j]
}

/// Where no two different files share a path, the table finds each file
/// under the bytes of its path.
pub proof fn lemma_table_lookup(items: Seq<ItemContent>, i: int)
    requires
        path_determines(items),
        0 <= i < items.len(),
    ensures
        table_of(items).contains_key(encode_utf8(items[i].path)),
        table_of(items)[encode_utf8(items[i].path)] == items[i],
    decreases items.len(),
{
    let last = items.last();
    let earlier = items.drop_last();
    if encode_utf8(items[i].path) == encode_utf8(last.path) {
        lemma_encode_injective(items[i].path, last.path);
        assert(items[i] == items[items.len() - 1]);
    } else {
        assert(path_determines(earlier)) by {
            assert forall|a: int, b: int|
                0 <= a < earlier.len() && 0 <= b < earlier.len() && (#[trigger] earlier[a]).path
                    == (#[trigger] earlier[b]).path implies earlier[a] == earlier[b] by {
                assert(items[a].path == items[b].path);
            }
        }
        assert(earlier[i] == items[i]);
        lemma_table_lookup(earlier, i);
    }
}

/// The table holds nothing but the files it was made of, each under the
/// bytes of its path.
pub proof fn lemma_table_keys(items: Seq<ItemContent>, key: Seq<u8>)
    requires
        table_of(items).contains_key(key),
    ensures
        exists|i: int|
            0 <= i < items.len() && encode_utf8((#[trigger] items[i]).path) == key && table_of(
                items,
            )[key] == items[i],
    decreases items.len(),
{
    if items.len() > 0 {
        let earlier = items.drop_last();
        if encode_utf8(items.last().path) == key {
            assert(encode_utf8(items[items.len() - 1].path) == key);
        } else {
            lemma_table_keys(earlier, key);
            let i = choose|i: int|
                0 <= i < earlier.len() && encode_utf8((#[trigger] earlier[i]).path) == key
                    && table_of(earlier)[key] == earlier[i];
            assert(encode_utf8(items[i].path) == key);
        }
    }
}

/// Whether no two different sources share a path.
pub open spec fn path_determines_source(sources: Seq<(Seq<char>, Seq<u8>)>) -> bool {
    forall|j: int, k: int|
        0 <= j < sources.len() && 0 <= k < sources.len() && (#[trigger] sources[j]).0 == (
        #[trigger] sources[k]).0 ==> sources[j] == sources[k]
}

/// The table that is served once `sources` were stored in that order and the
/// blob is loaded with `manifest`.
pub open spec fn served_table(sources: Seq<(Seq<char>, Seq<u8>)>, manifest: Seq<ItemView>) -> Map<
    Seq<u8>,
    ItemContent,
> {
    table_of(items_in(manifest, accumulated(compressed_all(sources)).bytes))
}

/// The files stored for `sources`, as they are served, under any order of
/// the manifest: the same files, no two different ones under one path.
proof fn lemma_served_is_stored(sources: Seq<(Seq<char>, Seq<u8>)>, manifest: Seq<ItemView>)
    requires
        path_determines_source(sources),
        manifest.to_multiset() == accumulated(compressed_all(sources)).items.to_multiset(),
    ensures
        ({
            let blob = accumulated(compressed_all(sources)).bytes;
            let served = items_in(manifest, blob);
            let stored = compressed_all(sources).map_values(|file: FileView| file_content(file));
            &&& served.to_multiset() == stored.to_multiset()
            &&& path_determines(served)
            &&& stored.len() == sources.len()
            &&& forall|i: int|
                0 <= i < sources.len() ==> #[trigger] stored[i] == file_content(
                    compressed(sources[i].0, sources[i].1),
                )
        }),
{
    broadcast use vstd::seq_lib::group_to_multiset_ensures;

    let files = compressed_all(sources);
    let acc = accumulated(files);
    let blob = acc.bytes;
    let stored = files.map_values(|file: FileView| file_content(file));
    let served = items_in(manifest, blob);
    lemma_accumulated_content(files);
    let place = |item: ItemView| item_in(item, blob);
    lemma_map_preserves_multiset(manifest, acc.items, place);
    assert(manifest.map_values(place) =~= served);
    assert(acc.items.map_values(place) =~= stored);
    assert forall|a: int, b: int|
        0 <= a < served.len() && 0 <= b < served.len() && (#[trigger] served[a]).path == (
        #[trigger] served[b]).path implies served[a] == served[b] by {
        assert(served.contains(served[a]));
        assert(served.contains(served[b]));
        assert(stored.to_multiset().count(served[a]) > 0);
        assert(stored.to_multiset().count(served[b]) > 0);
        assert(stored.contains(served[a]));
        assert(stored.contains(served[b]));
        let ja = choose|j: int| 0 <= j < stored.len() && stored[j] == served[a];
        let jb = choose|j: int| 0 <= j < stored.len() && stored[j] == served[b];
        assert(stored[ja].path == sources[ja].0);
        assert(stored[jb].path == sources[jb].0);
        assert(sources[ja] == sources[jb]);
    }
}

/// What is stored is served: when sources, no two different ones under one
/// path, are stored and the blob is loaded with the manifest in any order,
/// the table holds each source under the bytes of its path, with the
/// source's plain bytes and the compressed streams that were kept for it,
/// each under its token.
pub proof fn lemma_served_entry(
    sources: Seq<(Seq<char>, Seq<u8>)>,
    manifest: Seq<ItemView>,
    i: int,
)
    requires
        0 <= i < sources.len(),
        path_determines_source(sources),
        manifest.to_multiset() == accumulated(compressed_all(sources)).items.to_multiset(),
    ensures
        served_table(sources, manifest).contains_key(encode_utf8(sources[i].0)),
        served_table(sources, manifest)[encode_utf8(sources[i].0)] == file_content(
            compressed(sources[i].0, sources[i].1),
        ),
{
    broadcast use vstd::seq_lib::group_to_multiset_ensures;

    let blob = accumulated(compressed_all(sources)).bytes;
    let served = items_in(manifest, blob);
    let stored = compressed_all(sources).map_values(|file: FileView| file_content(file));
    let target = file_content(compressed(sources[i].0, sources[i].1));
    lemma_served_is_stored(sources, manifest);
    assert(stored[i] == target);
    assert(stored.contains(target));
    assert(served.to_multiset().count(target) > 0);
    assert(served.contains(target));
    let k = choose|k: int| 0 <= k < served.len() && served[k] == target;
    lemma_table_lookup(served, k);
}

/// Nothing is served but what was stored: every key of the table is the path
/// of one of the sources.
pub proof fn lemma_served_only_stored(
    sources: Seq<(Seq<char>, Seq<u8>)>,
    manifest: Seq<ItemView>,
    key: Seq<u8>,
)
    requires
        path_determines_source(sources),
        manifest.to_multiset() == accumulated(compressed_all(sources)).items.to_multiset(),
        served_table(sources, manifest).contains_key(key),
    ensures
        exists|i: int| 0 <= i < sources.len() && encode_utf8((#[trigger] sources[i]).0) == key,
{
    broadcast use vstd::seq_lib::group_to_multiset_ensures;

    let blob = accumulated(compressed_all(sources)).bytes;
    let served = items_in(manifest, blob);
    let stored = compressed_all(sources).map_values(|file: FileView| file_content(file));
    lemma_served_is_stored(sources, manifest);
    lemma_table_keys(served, key);
    let k = choose|k: int|
        0 <= k < served.len() && encode_utf8((#[trigger] served[k]).path) == key && table_of(
            served,
        )[key] == served[k];
    assert(served.contains(served[k]));
    assert(stored.to_multiset().count(served[k]) > 0);
    assert(stored.contains(served[k]));
    let j = choose|j: int| 0 <= j < stored.len() && stored[j] == served[k];
    assert(stored[j].path == sources[j].0);
    assert(encode_utf8(sources[j].0) == key);
}

/// Round trip of a build: when sources, no two different ones under one
/// path, are stored and the blob is loaded with the manifest in any order, a
/// request for the path of one of them, written without slashes around it,
/// is served from that source's own entry, whose variants are the source's
/// plain bytes and the compressed streams that were kept for it.
pub proof fn lemma_round_trip(
    sources: Seq<(Seq<char>, Seq<u8>)>,
    manifest: Seq<ItemView>,
    i: int,
)
    requires
        0 <= i < sources.len(),
        path_determines_source(sources),
        requested(sources[i].0) == encode_utf8(sources[i].0),
        manifest.to_multiset() == accumulated(compressed_all(sources)).items.to_multiset(),
    ensures
        ({
            let table = served_table(sources, manifest);
            let key = encode_utf8(sources[i].0);
            &&& resolved(table.dom(), sources[i].0) == Some(key)
            &&& table[key] == file_content(compressed(sources[i].0, sources[i].1))
        }),
{
    lemma_served_entry(sources, manifest, i);
}

/// A request that is served without an encoding gets the plain bytes of the
/// file, whatever the client accepts.
pub proof fn lemma_plain_is_served_as_stored(
    accept_encoding: Seq<char>,
    path: Seq<char>,
    plain: Seq<u8>,
)
    ensures
        ({
            let served = matched(accept_encoding, file_content(compressed(path, plain)));
            &&& served.path == path
            &&& served.encoding is None ==> served.content == plain && served.etag == token_of(
                plain,
            )
        }),
{
}

/// The table that is served does not depend on the order in which the
/// sources were stored, nor on the order of the manifest: two builds of the
/// same sources, no two different ones under one path, serve the same files
/// under the same paths.
pub proof fn lemma_served_independent_of_order(
    first: Seq<(Seq<char>, Seq<u8>)>,
    second: Seq<(Seq<char>, Seq<u8>)>,
    first_manifest: Seq<ItemView>,
    second_manifest: Seq<ItemView>,
)
    requires
        first.to_multiset() == second.to_multiset(),
        path_determines_source(first),
        first_manifest.to_multiset() == accumulated(compressed_all(first)).items.to_multiset(),
        second_manifest.to_multiset() == accumulated(compressed_all(second)).items.to_multiset(),
    ensures
        served_table(first, first_manifest) == served_table(second, second_manifest),
{
    broadcast use vstd::seq_lib::group_to_multiset_ensures;

    let one = served_table(first, first_manifest);
    let two = served_table(second, second_manifest);
    assert(path_determines_source(second)) by {
        assert forall|j: int, k: int|
            0 <= j < second.len() && 0 <= k < second.len() && (#[trigger] second[j]).0 == (
            #[trigger] second[k]).0 implies second[j] == second[k] by {
            assert(second.contains(second[j]));
            assert(second.contains(second[k]));
            assert(first.to_multiset().count(second[j]) > 0);
            assert(first.to_multiset().count(second[k]) > 0);
            assert(first.contains(second[j]));
            assert(first.contains(second[k]));
            let fj = choose|f: int| 0 <= f < first.len() && first[f] == second[j];
            let fk = choose|f: int| 0 <= f < first.len() && first[f] == second[k];
            assert(first[fj].0 == first[fk].0);
        }
    }
    assert forall|key: Seq<u8>| #[trigger] one.dom().contains(key) implies two.dom().contains(key)
        && one[key] == two[key] by {
        lemma_served_only_stored(first, first_manifest, key);
        let i = choose|i: int| 0 <= i < first.len() && encode_utf8((#[trigger] first[i]).0) == key;
        lemma_served_entry(first, first_manifest, i);
        assert(first.contains(first[i]));
        assert(second.to_multiset().count(first[i]) > 0);
        assert(second.contains(first[i]));
        let j = choose|j: int| 0 <= j < second.len() && second[j] == first[i];
        lemma_served_entry(second, second_manifest, j);
    }
    assert forall|key: Seq<u8>| #[trigger] two.dom().contains(key) implies one.dom().contains(
        key,
    ) by {
        lemma_served_only_stored(second, second_manifest, key);
        let j = choose|j: int|
            0 <= j < second.len() && encode_utf8((#[trigger] second[j]).0) == key;
        assert(second.contains(second[j]));
        assert(first.to_multiset().count(second[j]) > 0);
        assert(first.contains(second[j]));
        let i = choose|i: int| 0 <= i < first.len() && first[i] == second[j];
        lemma_served_entry(first, first_manifest, i);
    }
    assert(one.dom() =~= two.dom());
    assert(one =~= two);
}

impl ItemView {
    /// The item without the place of its variants: its path, and the token
    /// and the length of each variant.
    pub open spec fn unplaced(self) -> ItemView {
        ItemView {
            path: self.path,
            plain: VariantView { etag: self.plain.etag, start: 0, len: self.plain.len },
            gzip: match self.gzip {
                Some(v) => Some(VariantView { etag: v.etag, start: 0, len: v.len }),
                None => None,
            },
            brotli: match self.brotli {
                Some(v) => Some(VariantView { etag: v.etag, start: 0, len: v.len }),
                None => None,
            },
        }
    }
}

/// The manifest of `items` without the places of the variants.
pub open spec fn unplaced_all(items: Seq<ItemView>) -> Seq<ItemView> {
    items.map_values(|item: ItemView| item.unplaced())
}

/// What the manifest says of a file apart from the place of its variants.
pub open spec fn record_of(file: FileView) -> ItemView {
    AccumulatorView::empty().next_item(file).unplaced()
}

/// Apart from the places, the items recorded while storing files depend on
/// each file alone, not on what was stored before it.
pub proof fn lemma_accumulated_records(files: Seq<FileView>)
    ensures
        unplaced_all(accumulated(files).items) == files.map_values(|file: FileView| record_of(file)),
    decreases files.len(),
{
    let records = files.map_values(|file: FileView| record_of(file));
    if files.len() == 0 {
        assert(unplaced_all(accumulated(files).items) =~= records);
    } else {
        lemma_accumulated_records(files.drop_last());
        let before = accumulated(files.drop_last());
        assert(before.next_item(files.last()).unplaced() == record_of(files.last()));
        assert(unplaced_all(accumulated(files).items) =~= unplaced_all(before.items).push(
            record_of(files.last()),
        ));
        assert(records =~= files.drop_last().map_values(|file: FileView| record_of(file)).push(
            record_of(files.last()),
        ));
    }
}

/// Whether no two different items of `items` share a path.
pub open spec fn path_determines_item(items: Seq<ItemView>) -> bool {
    forall|i: int, j: int|
        0 <= i < items.len() && 0 <= j < items.len() && (#[trigger] items[i]).path == (
        #[trigger] items[j]).path ==> items[i] == items[j]
}

/// Two manifests sorted by path that hold the same items, no two different
/// ones under one path, are the same manifest.
pub proof fn lemma_sorted_unique(first: Seq<ItemView>, second: Seq<ItemView>)
    requires
        sorted_by_path(first),
        sorted_by_path(second),
        first.to_multiset() == second.to_multiset(),
        path_determines_item(first),
    ensures
        first == second,
    decreases first.len(),
{
    broadcast use vstd::seq_lib::group_to_multiset_ensures;

    assert(first.to_multiset().len() == first.len());
    assert(second.to_multiset().len() == second.len());
    if first.len() == 0 {
        assert(first =~= second);
    } else {
        let x = first[0];
        let y = second[0];
        assert(first.contains(x));
        assert(second.to_multiset().count(x) > 0);
        assert(second.contains(x));
        let k = choose|k: int| 0 <= k < second.len() && second[k] == x;
        assert(second.contains(y));
        assert(first.to_multiset().count(y) > 0);
        assert(first.contains(y));
        let j = choose|j: int| 0 <= j < first.len() && first[j] == y;
        assert(crate::bytes::lex_le(path_bytes(x), path_bytes(y))) by {
            if j == 0 {
                crate::bytes::lemma_lex_le_reflexive(path_bytes(x));
            } else {
                assert(crate::bytes::lex_le(path_bytes(first[0]), path_bytes(first[j])));
            }
        }
        assert(crate::bytes::lex_le(path_bytes(y), path_bytes(x))) by {
            if k == 0 {
                crate::bytes::lemma_lex_le_reflexive(path_bytes(y));
            } else {
                assert(crate::bytes::lex_le(path_bytes(second[0]), path_bytes(second[k])));
            }
        }
        lemma_lex_le_antisymmetric(path_bytes(x), path_bytes(y));
        lemma_encode_injective(x.path, y.path);
        assert(first[0].path == first[j].path);
        assert(x == y);
        let rest_first = first.drop_first();
        let rest_second = second.drop_first();
        assert(rest_first =~= first.remove(0));
        assert(rest_second =~= second.remove(0));
        assert(rest_first.to_multiset() =~= rest_second.to_multiset());
        assert(sorted_by_path(rest_first)) by {
            assert forall|a: int, b: int| 0 <= a < b < rest_first.len() implies crate::bytes::lex_le(
                path_bytes(#[trigger] rest_first[a]),
                path_bytes(#[trigger] rest_first[b]),
            ) by {
                assert(crate::bytes::lex_le(path_bytes(first[a + 1]), path_bytes(first[b + 1])));
            }
        }
        assert(sorted_by_path(rest_second)) by {
            assert forall|a: int, b: int| 0 <= a < b < rest_second.len() implies crate::bytes::lex_le(
                path_bytes(#[trigger] rest_second[a]),
                path_bytes(#[trigger] rest_second[b]),
            ) by {
                assert(crate::bytes::lex_le(path_bytes(second[a + 1]), path_bytes(second[b + 1])));
            }
        }
        assert(path_determines_item(rest_first)) by {
            assert forall|a: int, b: int|
                0 <= a < rest_first.len() && 0 <= b < rest_first.len() && (
                #[trigger] rest_first[a]).path == (#[trigger] rest_first[b]).path implies rest_first[a]
                == rest_first[b] by {
                assert(first[a + 1].path == first[b + 1].path);
            }
        }
        lemma_sorted_unique(rest_first, rest_second);
        assert(first =~= seq![x] + rest_first);
        assert(second =~= seq![y] + rest_second);
    }
}

/// The manifest does not depend on the order in which the files were stored:
/// when the same files, no two different ones under one path, are stored in
/// two orders, the two manifests, each sorted by path, agree on every path,
/// token and length. Only the places of the variants in the blob may differ.
pub proof fn lemma_manifest_independent_of_order(
    first: Seq<FileView>,
    second: Seq<FileView>,
    first_manifest: Seq<ItemView>,
    second_manifest: Seq<ItemView>,
)
    requires
        first.to_multiset() == second.to_multiset(),
        forall|i: int, j: int|
            0 <= i < first.len() && 0 <= j < first.len() && (#[trigger] first[i]).path == (
            #[trigger] first[j]).path ==> first[i] == first[j],
        first_manifest.to_multiset() == accumulated(first).items.to_multiset(),
        second_manifest.to_multiset() == accumulated(second).items.to_multiset(),
        sorted_by_path(first_manifest),
        sorted_by_path(second_manifest),
    ensures
        unplaced_all(first_manifest) == unplaced_all(second_manifest),
{
    broadcast use vstd::seq_lib::group_to_multiset_ensures;

    let strip = |item: ItemView| item.unplaced();
    let record = |file: FileView| record_of(file);
    let a = unplaced_all(first_manifest);
    let b = unplaced_all(second_manifest);
    lemma_accumulated_records(first);
    lemma_accumulated_records(second);
    lemma_map_preserves_multiset(first_manifest, accumulated(first).items, strip);
    lemma_map_preserves_multiset(second_manifest, accumulated(second).items, strip);
    lemma_map_preserves_multiset(first, second, record);
    assert(first_manifest.map_values(strip) =~= a);
    assert(second_manifest.map_values(strip) =~= b);
    assert(accumulated(first).items.map_values(strip) =~= first.map_values(record));
    assert(accumulated(second).items.map_values(strip) =~= second.map_values(record));
    assert(a.to_multiset() == b.to_multiset());
    assert(sorted_by_path(a)) by {
        assert forall|i: int, j: int| 0 <= i < j < a.len() implies crate::bytes::lex_le(
            path_bytes(#[trigger] a[i]),
            path_bytes(#[trigger] a[j]),
        ) by {
            assert(crate::bytes::lex_le(
                path_bytes(first_manifest[i]),
                path_bytes(first_manifest[j]),
            ));
        }
    }
    assert(sorted_by_path(b)) by {
        assert forall|i: int, j: int| 0 <= i < j < b.len() implies crate::bytes::lex_le(
            path_bytes(#[trigger] b[i]),
            path_bytes(#[trigger] b[j]),
        ) by {
            assert(crate::bytes::lex_le(
                path_bytes(second_manifest[i]),
                path_bytes(second_manifest[j]),
            ));
        }
    }
    let records = first.map_values(record);
    assert(path_determines_item(a)) by {
        assert forall|i: int, j: int|
            0 <= i < a.len() && 0 <= j < a.len() && (#[trigger] a[i]).path == (#[trigger] a[j]).path implies a[i]
            == a[j] by {
            assert(a.contains(a[i]));
            assert(a.contains(a[j]));
            assert(records.to_multiset().count(a[i]) > 0);
            assert(records.to_multiset().count(a[j]) > 0);
            assert(records.contains(a[i]));
            assert(records.contains(a[j]));
            let fi = choose|f: int| 0 <= f < records.len() && records[f] == a[i];
            let fj = choose|f: int| 0 <= f < records.len() && records[f] == a[j];
            assert(first[fi].path == first[fj].path);
        }
    }
    lemma_sorted_unique(a, b);
}

/// The length of an optional variant, none counting as nothing.
pub open spec fn len_or_zero(variant: Option<VariantView>) -> nat {
    match variant {
        Some(v) => v.len,
        None => 0,
    }
}

/// The number of bytes that the variants of an item take in the blob.
pub open spec fn item_size(item: ItemView) -> nat {
    item.plain.len + len_or_zero(item.gzip) + len_or_zero(item.brotli)
}

/// Whether the variants of an item lie back to back from `from` on: the plain
/// one, then the gzip one, then the brotli one.
pub open spec fn back_to_back(item: ItemView, from: nat) -> bool {
    &&& item.plain.start == from
    &&& item.gzip is Some ==> item.gzip->0.start == from + item.plain.len
    &&& item.brotli is Some ==> item.brotli->0.start == from + item.plain.len + len_or_zero(
        item.gzip,
    )
}

/// The number of bytes that the first `n` items take in the blob.
pub open spec fn size_before(items: Seq<ItemView>, n: int) -> nat
    decreases n,
{
    if n <= 0 {
        0
    } else {
        size_before(items, n - 1) + item_size(items[n - 1])
    }
}

/// Whether the regions of an accumulator tile its blob: each item's variants
/// lie back to back where those of the item before end, and the last ends
/// with the blob.
pub open spec fn packed(acc: AccumulatorView) -> bool {
    &&& forall|i: int|
        0 <= i < acc.items.len() ==> back_to_back(
            #[trigger] acc.items[i],
            size_before(acc.items, i),
        )
    &&& acc.bytes.len() == size_before(acc.items, acc.items.len() as int)
}

/// Whether every region of an item ends at `at` or before.
pub open spec fn ends_by(item: ItemView, at: nat) -> bool {
    item.within(at)
}

/// Whether every region of an item starts at `at` or after.
pub open spec fn starts_from(item: ItemView, at: nat) -> bool {
    &&& item.plain.start >= at
    &&& item.gzip is Some ==> item.gzip->0.start >= at
    &&& item.brotli is Some ==> item.brotli->0.start >= at
}

/// The bytes taken by the first items depend on those items alone.
proof fn lemma_size_before_prefix(items: Seq<ItemView>, longer: Seq<ItemView>, n: int)
    requires
        0 <= n <= items.len() <= longer.len(),
        forall|i: int| 0 <= i < items.len() ==> items[i] == longer[i],
    ensures
        size_before(items, n) == size_before(longer, n),
    decreases n,
{
    if n > 0 {
        lemma_size_before_prefix(items, longer, n - 1);
    }
}

/// The bytes taken by the first items grow with their number.
proof fn lemma_size_before_grows(items: Seq<ItemView>, m: int, n: int)
    requires
        0 <= m <= n,
    ensures
        size_before(items, m) <= size_before(items, n),
    decreases n - m,
{
    if m < n {
        lemma_size_before_grows(items, m, n - 1);
    }
}

/// The bytes taken by moved items are those taken before the move.
proof fn lemma_size_before_shifted(items: Seq<ItemView>, by: nat, n: int)
    requires
        0 <= n <= items.len(),
    ensures
        size_before(items.map_values(|item: ItemView| item.shifted(by)), n) == size_before(
            items,
            n,
        ),
    decreases n,
{
    if n > 0 {
        lemma_size_before_shifted(items, by, n - 1);
    }
}

/// The bytes taken by the items of two manifests, one after the other.
proof fn lemma_size_before_concat(first: Seq<ItemView>, second: Seq<ItemView>, n: int)
    requires
        0 <= n <= second.len(),
    ensures
        size_before(first + second, first.len() + n) == size_before(first, first.len() as int)
            + size_before(second, n),
    decreases n,
{
    if n == 0 {
        lemma_size_before_prefix(first, first + second, first.len() as int);
    } else {
        lemma_size_before_concat(first, second, n - 1);
        assert((first + second)[first.len() + n - 1] == second[n - 1]);
    }
}

/// Merging two accumulators whose regions tile their blobs gives one whose
/// regions tile its blob.
pub proof fn lemma_merged_packed(a: AccumulatorView, b: AccumulatorView)
    requires
        packed(a),
        packed(b),
    ensures
        packed(a.merged(b)),
{
    let m = a.merged(b);
    let moved = b.items.map_values(|item: ItemView| item.shifted(a.bytes.len()));
    assert(m.items =~= a.items + moved);
    assert forall|i: int| 0 <= i < m.items.len() implies back_to_back(
        #[trigger] m.items[i],
        size_before(m.items, i),
    ) by {
        if i < a.items.len() {
            lemma_size_before_prefix(a.items, m.items, i);
            assert(back_to_back(a.items[i], size_before(a.items, i)));
        } else {
            let k = i - a.items.len();
            lemma_size_before_concat(a.items, moved, k);
            lemma_size_before_shifted(b.items, a.bytes.len(), k);
            assert(back_to_back(b.items[k], size_before(b.items, k)));
        }
    }
    lemma_size_before_concat(a.items, moved, moved.len() as int);
    lemma_size_before_shifted(b.items, a.bytes.len(), b.items.len() as int);
}

/// The regions recorded while storing files tile the blob: nothing of the
/// blob is left out and no byte belongs to two variants.
pub proof fn lemma_accumulated_packed(files: Seq<FileView>)
    ensures
        packed(accumulated(files)),
    decreases files.len(),
{
    if files.len() > 0 {
        let before = accumulated(files.drop_last());
        let single = AccumulatorView::empty().added(files.last());
        lemma_accumulated_packed(files.drop_last());
        lemma_added_is_merged(before, files.last());
        assert(packed(single)) by {
            assert(size_before(single.items, 0) == 0);
            assert(size_before(single.items, 1) == item_size(single.items[0]));
        }
        lemma_merged_packed(before, single);
    }
}

/// In an accumulator whose regions tile its blob, the regions of an item end
/// where those of every later item start or before: no two items overlap.
pub proof fn lemma_packed_disjoint(acc: AccumulatorView, i: int, j: int)
    requires
        packed(acc),
        0 <= i < j < acc.items.len(),
    ensures
        ends_by(acc.items[i], size_before(acc.items, j)),
        starts_from(acc.items[j], size_before(acc.items, j)),
{
    assert(back_to_back(acc.items[i], size_before(acc.items, i)));
    assert(back_to_back(acc.items[j], size_before(acc.items, j)));
    assert(size_before(acc.items, i + 1) == size_before(acc.items, i) + item_size(acc.items[i]));
    lemma_size_before_grows(acc.items, i + 1, j);
}

} // verus!
