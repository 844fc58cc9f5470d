use std::cell::Cell;
use tpt_zero_text::arraystring::{ArrayString, Utf8Error};
use tpt_zero_text::arrayvec::{ArrayVec, CapacityError};
use tpt_zero_text::color::{Rgb, Rgba};
use tpt_zero_text::fast_math::isqrt;
use tpt_zero_text::linear_map::{ArrayLinearMap, VecLinearMap};
use tpt_zero_text::pool::{ArrayPool, Pool};
use tpt_zero_text::ring::{Ring, RingFull};
use tpt_zero_text::slug::{slugify, slugify_into, SlugWriter};
use tpt_zero_text::utf8::{from_bytes, Utf8Str};

#[test]
fn lib_push_pop() {
    let mut v: ArrayVec<i32, 4> = ArrayVec::new();
    assert!(v.is_empty());
    assert!(v.push(1).is_ok());
    assert!(v.push(2).is_ok());
    assert_eq!(v.len(), 2);
    assert_eq!(v.pop(), Some(2));
    assert_eq!(v.pop(), Some(1));
    assert_eq!(v.pop(), None);
}

#[test]
fn capacity_error() {
    let mut v: ArrayVec<i32, 2> = ArrayVec::new();
    assert!(v.push(1).is_ok());
    assert!(v.push(2).is_ok());
    assert_eq!(v.push(3), Err(CapacityError));
    assert_eq!(v.len(), 2);
}

#[test]
fn insert_remove() {
    let mut v: ArrayVec<i32, 4> = ArrayVec::new();
    v.push(1).unwrap();
    v.push(3).unwrap();
    v.insert(1, 2).unwrap();
    assert_eq!(v.as_slice(), &[1, 2, 3]);
    assert_eq!(v.remove(1), Some(2));
    assert_eq!(v.as_slice(), &[1, 3]);
    assert_eq!(v.remove(5), None);
}

#[test]
fn truncate_clear() {
    let mut v: ArrayVec<i32, 4> = ArrayVec::new();
    for i in 0..4 {
        v.push(i).unwrap();
    }
    v.truncate(2);
    assert_eq!(v.as_slice(), &[0, 1]);
    v.clear();
    assert!(v.is_empty());
}

#[test]
fn deref_and_iter() {
    let mut v: ArrayVec<i32, 3> = ArrayVec::new();
    v.push(10).unwrap();
    v.push(20).unwrap();
    let s: &[i32] = v.as_slice();
    assert_eq!(s, &[10, 20]);
    let mut sum: i32 = 0;
    let mut it = v.iter();
    while let Some(x) = it.next() {
        sum += *x;
    }
    assert_eq!(sum, 30);
}

#[test]
fn drop_runs_destructors() {
    struct DropCounter<'a>(&'a Cell<usize>);
    impl<'a> Drop for DropCounter<'a> {
        fn drop(&mut self) {
            self.0.set(self.0.get() + 1);
        }
    }
    let counter = Cell::new(0);
    {
        let mut v: ArrayVec<DropCounter<'_>, 3> = ArrayVec::new();
        v.push(DropCounter(&counter)).ok().unwrap();
        v.push(DropCounter(&counter)).ok().unwrap();
        v.pop();
    }
    assert_eq!(counter.get(), 2);
}

#[test]
fn arrayvec_oracle_insert() {
    let mut av: ArrayVec<i32, 16> = ArrayVec::new();
    let mut vv: Vec<i32> = Vec::new();
    for (k, val) in (0..40).map(|k| (k * 7 % 8, k as i32)) {
        if vv.len() >= 16 {
            continue;
        }
        let i = (k as usize).min(vv.len());
        match av.insert(i, val) {
            Ok(()) => vv.insert(i, val),
            Err(_) => assert_eq!(vv.len(), 16),
        }
    }
    assert_eq!(av.as_slice(), &vv[..]);
    assert!(av.is_full());
    assert_eq!(av.capacity(), 16);
    assert_eq!(av.insert(0, 1), Err(CapacityError));
    assert_eq!(av.get(0), Some(&vv[0]));
    assert_eq!(av.get(16), None);
    *av.get_mut(0).unwrap() = -1;
    assert_eq!(av.as_slice()[0], -1);
}

#[test]
fn basic_push_pop() {
    let mut r: Ring<i32, 3> = Ring::new();
    assert!(r.is_empty());
    r.push_back(1).unwrap();
    r.push_back(2).unwrap();
    assert_eq!(r.len(), 2);
    assert_eq!(r.front(), Some(&1));
    assert_eq!(r.back(), Some(&2));
    assert_eq!(r.pop_front(), Some(1));
    assert_eq!(r.pop_front(), Some(2));
    assert_eq!(r.pop_front(), None);
}

#[test]
fn full_errors() {
    let mut r: Ring<i32, 2> = Ring::new();
    r.push_back(1).unwrap();
    r.push_back(2).unwrap();
    assert_eq!(r.push_back(3), Err(RingFull));
}

#[test]
fn overwrite_mode() {
    let mut r: Ring<i32, 2> = Ring::new_overwrite();
    r.push_back(1).unwrap();
    r.push_back(2).unwrap();
    r.push_back(3).unwrap();
    assert_eq!(r.pop_front(), Some(2));
    assert_eq!(r.pop_front(), Some(3));
    assert_eq!(r.pop_front(), None);
}

#[test]
fn clear_drops() {
    struct C<'a>(&'a Cell<usize>);
    impl<'a> Drop for C<'a> {
        fn drop(&mut self) {
            self.0.set(self.0.get() + 1);
        }
    }
    let c = Cell::new(0);
    {
        let mut r: Ring<C<'_>, 3> = Ring::new();
        r.push_back(C(&c)).ok().unwrap();
        r.push_back(C(&c)).ok().unwrap();
        r.clear();
        r.push_back(C(&c)).ok().unwrap();
    }
    assert_eq!(c.get(), 3);
}

#[test]
fn iter_order() {
    let mut r: Ring<i32, 4> = Ring::new();
    r.push_back(10).unwrap();
    r.push_back(20).unwrap();
    r.pop_front();
    r.push_back(30).unwrap();
    let mut collected: Vec<i32> = Vec::new();
    let mut it = r.iter();
    while let Some(x) = it.next() {
        collected.push(*x);
    }
    assert_eq!(collected, vec![20, 30]);
}

#[test]
fn ring_wraps_and_front_mut() {
    let mut r: Ring<i32, 3> = Ring::default();
    for i in 0..3 {
        r.push_back(i).unwrap();
    }
    assert!(r.is_full());
    assert_eq!(r.capacity(), 3);
    assert_eq!(r.pop_front(), Some(0));
    r.push_back(3).unwrap();
    assert_eq!(r.back(), Some(&3));
    *r.front_mut().unwrap() = 10;
    let mut got = Vec::new();
    while let Some(x) = r.pop_front() {
        got.push(x);
    }
    assert_eq!(got, vec![10, 2, 3]);
}

#[test]
fn ring_fifo_oracle() {
    let mut r: Ring<i32, 4> = Ring::new();
    let mut model: std::collections::VecDeque<i32> = std::collections::VecDeque::new();
    for k in 0..50i32 {
        if k % 3 == 2 {
            assert_eq!(r.pop_front(), model.pop_front());
        } else if r.push_back(k).is_ok() {
            model.push_back(k);
        } else {
            assert_eq!(model.len(), 4);
        }
        assert_eq!(r.len(), model.len());
    }
}

fn ring_items<const N: usize>(r: &Ring<i32, N>) -> Vec<i32> {
    let mut it = r.iter();
    let mut out = Vec::new();
    while let Some(x) = it.next() {
        out.push(*x);
    }
    out
}

#[test]
fn ring_matches_queue_model_in_both_modes() {
    let mut r: Ring<i32, 4> = Ring::new();
    r.push_back(10).unwrap();
    r.push_back(20).unwrap();
    assert_eq!(r.pop_front(), Some(10));
    r.push_back(30).unwrap();
    assert_eq!(ring_items(&r), vec![20, 30]);
    for overwrite in [false, true] {
        let mut r: Ring<i32, 3> = if overwrite { Ring::new_overwrite() } else { Ring::new() };
        let mut q: std::collections::VecDeque<i32> = std::collections::VecDeque::new();
        for k in 0..40i32 {
            if k % 5 == 4 {
                assert_eq!(r.pop_front(), q.pop_front());
            } else {
                if q.len() == 3 {
                    if overwrite {
                        q.pop_front();
                    } else {
                        assert!(r.push_back(k).is_err());
                        continue;
                    }
                }
                q.push_back(k);
                assert!(r.push_back(k).is_ok());
            }
            assert_eq!(ring_items(&r), q.iter().copied().collect::<Vec<_>>());
        }
    }
}

#[test]
fn hex_roundtrip() {
    let c = Rgb::new(0x12, 0x34, 0xAB);
    let mut buf = [0u8; 7];
    let s = c.to_hex(&mut buf).unwrap();
    assert_eq!(s, b"#1234ab");
    assert_eq!(Rgb::from_hex(b"#1234ab"), Some(c));
    assert_eq!(Rgb::from_hex(b"1234ab"), Some(c));
}

#[test]
fn rgba_hex() {
    let c = Rgba::new(0xFF, 0x00, 0x80, 0x40);
    let mut buf = [0u8; 9];
    let s = c.to_hex(&mut buf).unwrap();
    assert_eq!(s, b"#ff008040");
    assert_eq!(Rgba::from_hex(b"#ff008040"), Some(c));
    assert_eq!(Rgba::from_hex(b"ff0080"), Some(Rgba::new(0xFF, 0x00, 0x80, 255)));
}

#[test]
fn color_hex_edges() {
    let mut small = [0u8; 6];
    assert!(Rgb::new(1, 2, 3).to_hex(&mut small).is_none());
    assert_eq!(Rgb::from_hex(b"#12345"), None);
    assert_eq!(Rgb::from_hex(b"#12345g"), None);
    assert_eq!(Rgb::from_hex(b"ABCDEF"), Some(Rgb::new(0xAB, 0xCD, 0xEF)));
    let c = Rgba::new(1, 2, 3, 4);
    assert_eq!(c.rgb(), Rgb::new(1, 2, 3));
    assert_eq!(c.with_alpha(9), Rgba::new(1, 2, 3, 9));
    for v in 0..=255u8 {
        let c = Rgb::new(v, 255 - v, v / 2);
        let mut buf = [0u8; 7];
        let s = c.to_hex(&mut buf).unwrap();
        assert_eq!(Rgb::from_hex(s), Some(c));
    }
}

#[test]
fn isqrt_basic() {
    assert_eq!(isqrt(0), 0);
    assert_eq!(isqrt(15), 3);
    assert_eq!(isqrt(16), 4);
    assert_eq!(isqrt(17), 4);
}

#[test]
fn isqrt_edges() {
    assert_eq!(isqrt(1), 1);
    assert_eq!(isqrt(2), 1);
    assert_eq!(isqrt(u32::MAX), 65535);
    assert_eq!(isqrt(65536 * 65535), 65535);
}

#[test]
fn acquire_release_drops() {
    struct Track<'a>(&'a Cell<usize>);
    impl<'a> Drop for Track<'a> {
        fn drop(&mut self) {
            self.0.set(self.0.get() + 1);
        }
    }
    let drops = Cell::new(0);
    let mut pool: ArrayPool<Track<'_>, 3> = ArrayPool::new();
    assert!(pool.is_empty());
    let g1 = pool.acquire(Track(&drops)).unwrap();
    assert_eq!(g1.index(), 0);
    g1.release(&mut pool);
    assert_eq!(drops.get(), 1);
    assert!(pool.is_empty());
}

#[test]
fn full_pool_returns_none() {
    let mut pool: ArrayPool<i32, 2> = ArrayPool::new();
    let _a = pool.acquire(1).unwrap();
    let _b = pool.acquire(2).unwrap();
    assert!(pool.acquire(3).is_none());
    assert_eq!(pool.len(), 2);
}

#[test]
fn reuse_slot_after_release() {
    let mut pool: ArrayPool<i32, 2> = ArrayPool::new();
    {
        let g = pool.acquire(10).unwrap();
        assert_eq!(*pool.get(&g), 10);
        g.release(&mut pool);
    }
    let g2 = pool.acquire(20).unwrap();
    assert_eq!(*pool.get(&g2), 20);
    assert_eq!(g2.index(), 0);
}

#[test]
fn explicit_release() {
    let mut pool: ArrayPool<i32, 2> = ArrayPool::new();
    let g = pool.acquire(5).unwrap();
    g.release(&mut pool);
    let g2 = pool.acquire(7).unwrap();
    assert_eq!(*pool.get(&g2), 7);
}

#[test]
fn mutate_through_guard() {
    let mut pool: ArrayPool<i32, 2> = ArrayPool::new();
    let g = pool.acquire(1).unwrap();
    *pool.get_mut(&g) += 41;
    assert_eq!(*pool.get(&g), 42);
}

#[test]
fn alloc_pool_grows() {
    let mut pool: Pool<i32> = Pool::new();
    let mut guards = Vec::new();
    for i in 0..5 {
        guards.push(pool.acquire(i));
    }
    assert_eq!(pool.len(), 5);
    for g in guards.drain(..) {
        g.release(&mut pool);
    }
    assert!(pool.is_empty());
    let g = pool.acquire(99);
    assert_eq!(*pool.get(&g), 99);
    assert_eq!(g.index(), 4);
}

#[test]
fn pool_bookkeeping() {
    let mut pool: ArrayPool<u8, 16> = ArrayPool::new();
    let mut live = Vec::new();
    for v in 0..200u32 {
        if live.len() < 16 && v % 5 != 4 {
            live.push(pool.acquire(v as u8).unwrap());
        } else if let Some(g) = live.pop() {
            g.release(&mut pool);
        }
        assert_eq!(pool.len(), live.len());
    }
    for g in live.drain(..) {
        g.release(&mut pool);
    }
    assert!(pool.is_empty());
    assert_eq!(pool.capacity(), 16);
}

#[test]
fn simple_ascii() {
    let u = from_bytes(b"Hello World").ok().unwrap();
    let mut buf = [0u8; 64];
    assert_eq!(slugify_into(&u, &mut buf), b"hello-world");
}

#[test]
fn latin1_translit() {
    let s = "Café Münchën Über ß";
    let u = Utf8Str::from_bytes_unchecked(s.as_bytes());
    let mut buf = [0u8; 64];
    let got = slugify_into(&u, &mut buf);
    assert_eq!(core::str::from_utf8(got).unwrap(), "cafe-muenchen-ueber-ss");
}

#[test]
fn punctuation_dropped() {
    let u = from_bytes(b"foo!!!bar").ok().unwrap();
    let mut buf = [0u8; 64];
    assert_eq!(slugify_into(&u, &mut buf), b"foobar");
}

#[test]
fn leading_trailing_sep() {
    let u = from_bytes(b"---hello---world---").ok().unwrap();
    let mut buf = [0u8; 64];
    assert_eq!(slugify_into(&u, &mut buf), b"hello-world");
}

#[test]
fn edge_empty() {
    let u = from_bytes(b"!@#$").ok().unwrap();
    let mut buf = [0u8; 64];
    assert_eq!(slugify_into(&u, &mut buf), b"");
}

#[test]
fn alloc_slugify() {
    let s = "The Quick Brown Fox";
    let u = Utf8Str::from_bytes_unchecked(s.as_bytes());
    assert_eq!(slugify(&u), "the-quick-brown-fox");
}

#[test]
fn slug_writer_incremental_and_small_buffer() {
    let mut buf = [0u8; 5];
    let mut w = SlugWriter::new(&mut buf);
    assert!(w.is_empty());
    w.push_char('A');
    w.push_char('b');
    w.push_char(' ');
    w.push_char('C');
    assert_eq!(w.as_bytes(), b"ab-c");
    assert_eq!(w.len(), 4);
    w.push_char('.');
    w.push_char('d');
    w.push_char('e');
    assert_eq!(w.finish(), b"ab-c");
    let mut tiny = [0u8; 1];
    let u = from_bytes("þ".as_bytes()).ok().unwrap();
    assert_eq!(slugify_into(&u, &mut tiny), b"");
}

#[test]
fn slug_keeps_words_whole() {
    let u = from_bytes(b"hello world").ok().unwrap();
    let mut buf = [0u8; 3];
    assert_eq!(slugify_into(&u, &mut buf), b"");
    let mut buf = [0u8; 8];
    assert_eq!(slugify_into(&u, &mut buf), b"hello");
    let mut buf = [0u8; 11];
    assert_eq!(slugify_into(&u, &mut buf), b"hello-world");
    let u = from_bytes(b"ab cdefgh ij").ok().unwrap();
    let mut buf = [0u8; 6];
    assert_eq!(slugify_into(&u, &mut buf), b"ab");
}

#[test]
fn slugify_long_input() {
    let s = "ab ".repeat(200);
    let u = from_bytes(s.as_bytes()).ok().unwrap();
    assert_eq!(slugify(&u), vec!["ab"; 200].join("-"));
    let s = "Ü".repeat(300);
    let u = from_bytes(s.as_bytes()).ok().unwrap();
    assert_eq!(slugify(&u), "ue".repeat(300));
}

#[test]
fn slug_charset_samples() {
    for s in ["  a--b__c  ", "ÀÉÎÕÜ×÷ÿ", "x/y\\z+w,v", "🦀 crab 🦀", "Æsir Ø"] {
        let u = Utf8Str::from_bytes_unchecked(s.as_bytes());
        let mut buf = [0u8; 64];
        let out = slugify_into(&u, &mut buf);
        for &b in out {
            assert!(b.is_ascii_lowercase() || b.is_ascii_digit() || b == b'-');
        }
        if !out.is_empty() {
            assert_ne!(out[0], b'-');
            assert_ne!(out[out.len() - 1], b'-');
        }
        for w in out.windows(2) {
            assert!(!(w[0] == b'-' && w[1] == b'-'));
        }
    }
}

#[test]
fn insert_get_replace() {
    let mut m: ArrayLinearMap<i32, &str, 8> = ArrayLinearMap::new();
    assert!(m.insert(3, "c").is_ok());
    assert!(m.insert(1, "a").is_ok());
    assert!(m.insert(2, "b").is_ok());
    assert_eq!(m.get(&1), Some(&"a"));
    assert_eq!(m.get(&2), Some(&"b"));
    assert_eq!(m.get(&3), Some(&"c"));
    assert_eq!(m.get(&9), None);
    let mut keys = [0i32; 8];
    let mut n = 0;
    for k in m.keys() {
        keys[n] = *k;
        n += 1;
    }
    assert_eq!(&keys[..n], &[1, 2, 3]);
    assert_eq!(m.insert(2, "B"), Ok(Some("b")));
    assert_eq!(m.get(&2), Some(&"B"));
}

#[test]
fn remove_works() {
    let mut m: ArrayLinearMap<i32, i32, 8> = ArrayLinearMap::new();
    for i in 0..5 {
        m.insert(i, i * 10).ok();
    }
    assert_eq!(m.remove(&2), Some(20));
    assert_eq!(m.get(&2), None);
    assert_eq!(m.len(), 4);
}

#[test]
fn overflow_errors() {
    let mut m: ArrayLinearMap<i32, i32, 2> = ArrayLinearMap::new();
    assert!(m.insert(1, 1).is_ok());
    assert!(m.insert(2, 2).is_ok());
    assert_eq!(m.insert(3, 3), Err(3));
}

#[test]
fn alloc_vec_map() {
    let mut m: VecLinearMap<i32, i32> = VecLinearMap::new();
    for i in 0..10 {
        assert_eq!(m.insert(i, i * 2), None);
    }
    assert_eq!(m.insert(5, 999), Some(10));
    assert_eq!(m.get(&5), Some(&999));
    assert_eq!(m.remove(&5), Some(999));
    assert_eq!(m.get(&5), None);
    let mut prev = -1;
    for k in m.keys() {
        assert!(*k > prev);
        prev = *k;
    }
}

#[test]
fn linear_map_oracle_vs_btreemap() {
    let mut map: ArrayLinearMap<u8, u8, 128> = ArrayLinearMap::new();
    let mut oracle: std::collections::BTreeMap<u8, u8> = std::collections::BTreeMap::new();
    for step in 0..300u32 {
        let k = (step * 37 % 61) as u8;
        let v = (step % 251) as u8;
        if step % 4 == 3 {
            assert_eq!(map.remove(&k), oracle.remove(&k));
        } else {
            let got = map.insert(k, v).unwrap_or_else(|_| unreachable!());
            assert_eq!(got, oracle.insert(k, v));
        }
        for probe in 0..61u8 {
            assert_eq!(map.get(&probe), oracle.get(&probe));
        }
    }
    *map.get_mut(&0).unwrap_or(&mut 0) = 7;
    let values: Vec<u8> = map.values().into_iter().copied().collect();
    let want: Vec<u8> = oracle.values().copied().collect();
    assert_eq!(values.len(), want.len());
    assert_eq!(map.iter().len(), map.len());
    assert!(!map.is_empty());
    assert_eq!(map.capacity(), 128);
}

#[test]
fn lib_parse_document() {
    let doc = tpt_zero_text::ini::parse(b"[s]\nx = 1\ny = 2\n").unwrap();
    assert_eq!(doc.entries.len(), 2);
    assert_eq!(doc.section("s").len(), 2);
}

#[test]
fn lib_roundtrip_values() {
    let doc = tpt_zero_text::ini::parse(b"a = hello\nb = world\n").unwrap();
    assert_eq!(doc.top_level().len(), 2);
    assert_eq!(doc.entries[0].1, "a");
    assert_eq!(doc.entries[0].2, "hello");
}

#[test]
fn ini_document_sections_and_errors() {
    let doc = tpt_zero_text::ini::parse(b"t = 0\n[a]\nx = 1\n[b]\ny = 2\n[a]\nz = 3\n").unwrap();
    let a = doc.section("a");
    assert_eq!(a.len(), 2);
    assert_eq!(a[1].0, "z");
    assert_eq!(doc.section("c").len(), 0);
    assert_eq!(doc.top_level().len(), 1);
    assert_eq!(
        tpt_zero_text::ini::parse(b"oops"),
        Err(tpt_zero_text::ini::IniError::InvalidLine(0))
    );
}

#[test]
fn push_pop_ascii() {
    let mut s: ArrayString<8> = ArrayString::new();
    assert!(s.push('h').is_ok());
    assert!(s.push('i').is_ok());
    assert_eq!(s.as_str(), "hi");
    assert_eq!(s.pop(), Some('i'));
    assert_eq!(s.as_str(), "h");
}

#[test]
fn push_multibyte() {
    let mut s: ArrayString<8> = ArrayString::new();
    assert!(s.push('é').is_ok());
    assert!(s.push_str("🦀").is_ok());
    assert_eq!(s.as_str(), "é🦀");
}

#[test]
fn overflow_is_error() {
    let mut s: ArrayString<3> = ArrayString::new();
    assert!(s.push_str("abc").is_ok());
    assert_eq!(s.push('d'), Err(Utf8Error::Overflow));
    assert_eq!(s.push_str("xy"), Err(Utf8Error::Overflow));
    assert_eq!(s.as_str(), "abc");
}

#[test]
fn pop_multibyte() {
    let mut s: ArrayString<8> = ArrayString::new();
    s.push_str("a🦀").unwrap();
    assert_eq!(s.pop(), Some('🦀'));
    assert_eq!(s.as_str(), "a");
}

#[test]
fn arraystring_lengths_and_clear() {
    let mut s: ArrayString<6> = ArrayString::default();
    assert!(s.is_empty());
    assert_eq!(s.capacity(), 6);
    assert_eq!(s.pop(), None);
    assert!(s.push('€').is_ok());
    assert_eq!(s.len(), 3);
    assert_eq!(s.as_bytes(), &[0xE2, 0x82, 0xAC]);
    assert_eq!(s.push('🦀'), Err(Utf8Error::Overflow));
    assert!(s.push_str("xyz").is_ok());
    assert!(s.is_full());
    assert_eq!(s.as_str(), "€xyz");
    assert_eq!(s.push_str(""), Ok(()));
    assert_eq!(s.pop(), Some('z'));
    assert_eq!(s.pop(), Some('y'));
    assert_eq!(s.pop(), Some('x'));
    assert_eq!(s.pop(), Some('€'));
    assert!(s.is_empty());
    s.push_str("ab").unwrap();
    s.clear();
    assert_eq!(s.as_str(), "");
    assert_eq!(s.len(), 0);
}

#[test]
fn pool_release_all_frees_every_slot() {
    let mut pool: ArrayPool<u8, 4> = ArrayPool::new();
    let mut guards = Vec::new();
    for v in 0..4u8 {
        guards.push(pool.acquire(v).unwrap());
    }
    assert_eq!(pool.len(), 4);
    assert!(pool.acquire(9).is_none());
    for g in guards {
        g.release(&mut pool);
    }
    assert_eq!(pool.len(), 0);
    assert!(pool.is_empty());
    for v in 0..4u8 {
        assert!(pool.acquire(v).is_some());
    }
}

#[test]
fn ring_clone_is_independent() {
    let mut r: Ring<i32, 2> = Ring::new_overwrite();
    r.push_back(1).unwrap();
    r.push_back(2).unwrap();
    r.push_back(3).unwrap();
    let mut c = r.clone();
    assert_eq!(c.pop_front(), Some(2));
    assert_eq!(c.pop_front(), Some(3));
    assert_eq!(c.pop_front(), None);
    assert_eq!(r.len(), 2);
    assert_eq!(r.front(), Some(&2));
    r.push_back(4).unwrap();
    assert_eq!(r.pop_front(), Some(3));
}
