use vec2::Vec2;

#[test]
fn test_vec2_push_pop() {
    let mut vec2 = Vec2::new(3);
    vec2.push(1);
    vec2.push(2);
    vec2.push(3);
    vec2.push(4);
    assert_eq!(vec2.len(), 4);
    assert_eq!(vec2.pop(), Some(4));
    assert_eq!(vec2.pop(), Some(3));
    assert_eq!(vec2.len(), 2);
}

#[test]
fn test_vec2_capacity() {
    let mut vec2 = Vec2::new(5);
    assert_eq!(vec2.capacity(), 0);
    for i in 0..7 {
        vec2.push(i);
    }
    assert_eq!(vec2.capacity(), 10);
    assert_eq!(2, vec2.capacity() / vec2.chunk_size());
}

#[test]
fn test_vec2_index() {
    let mut vec2 = Vec2::new(2);
    vec2.push(10);
    vec2.push(20);
    vec2.push(30);
    assert_eq!(*vec2.index(0), 10);
    assert_eq!(*vec2.index(1), 20);
    assert_eq!(*vec2.index(2), 30);
    *vec2.index_mut(1) = 25;
    assert_eq!(*vec2.index(1), 25);
}

#[test]
fn test_vec2_iter() {
    let mut vec2 = Vec2::new(3);
    for i in 0..5 {
        vec2.push(i);
    }
    let mut collected: Vec<i32> = Vec::new();
    let mut it = vec2.iter();
    while let Some(x) = it.next() {
        collected.push(*x);
    }
    assert_eq!(collected, vec![0, 1, 2, 3, 4]);
}

#[test]
fn test_vec2_iter_mut() {
    let mut vec2 = Vec2::new(3);
    for i in 0..5 {
        vec2.push(i);
    }
    let mut it = vec2.iter_mut();
    while let Some(value) = it.next() {
        *value *= 2;
    }
    let mut collected: Vec<i32> = Vec::new();
    let mut reader = vec2.iter();
    while let Some(x) = reader.next() {
        collected.push(*x);
    }
    assert_eq!(collected, vec![0, 2, 4, 6, 8]);
}

#[test]
fn test_vec2_for_each() {
    let mut vec2 = Vec2::new(4);
    for i in 0..5 {
        vec2.push(i);
    }
    let mut it = vec2.iter_mut();
    while let Some(x) = it.next() {
        *x += 1;
    }
    let mut collected: Vec<i32> = Vec::new();
    let mut reader = vec2.iter();
    while let Some(x) = reader.next() {
        collected.push(*x);
    }
    assert_eq!(collected, vec![1, 2, 3, 4, 5]);
}

#[test]
fn test_vec2_swap() {
    let mut vec2 = Vec2::new(2);
    vec2.push(1);
    vec2.push(2);
    vec2.push(3);
    vec2.push(4);
    vec2.swap(0, 3);
    assert_eq!(*vec2.index(0), 4);
    assert_eq!(*vec2.index(3), 1);
}

#[test]
fn test_pop_from_empty_is_none() {
    let mut vec2: Vec2<i32> = Vec2::new(3);
    assert_eq!(vec2.pop(), None);
    vec2.push(8);
    assert_eq!(vec2.pop(), Some(8));
    assert_eq!(vec2.pop(), None);
}

#[test]
fn test_push_then_pop_restores_sequence() {
    let mut vec2 = Vec2::new(2);
    vec2.push(5);
    vec2.push(6);
    vec2.push(9);
    assert_eq!(vec2.pop(), Some(9));
    assert_eq!(vec2.len(), 2);
    assert_eq!(*vec2.index(0), 5);
    assert_eq!(*vec2.index(1), 6);
}

#[test]
fn test_capacity_follows_ceiling_formula() {
    let mut vec2 = Vec2::new(3);
    let expected = [3, 3, 3, 6, 6, 6, 9];
    for i in 0..7 {
        vec2.push(i);
        assert_eq!(vec2.capacity(), expected[i as usize]);
    }
}

#[test]
fn test_capacity_survives_pop_and_clear() {
    let mut vec2 = Vec2::new(3);
    for i in 0..4 {
        vec2.push(i);
    }
    assert_eq!(vec2.capacity(), 6);
    vec2.pop();
    vec2.pop();
    assert_eq!(vec2.capacity(), 6);
    vec2.clear();
    assert_eq!(vec2.len(), 0);
    assert!(vec2.is_empty());
    assert_eq!(vec2.capacity(), 6);
    let mut it = vec2.iter();
    assert!(it.next().is_none());
    vec2.push(41);
    assert_eq!(vec2.capacity(), 6);
    assert_eq!(*vec2.index(0), 41);
}

#[test]
fn test_get_and_get_mut() {
    let mut vec2 = Vec2::new(2);
    vec2.push(7);
    vec2.push(8);
    assert_eq!(vec2.get(0), Some(&7));
    assert_eq!(vec2.get(1), Some(&8));
    assert_eq!(vec2.get(2), None);
    if let Some(x) = vec2.get_mut(1) {
        *x = 80;
    }
    assert_eq!(vec2.get(1), Some(&80));
    assert!(vec2.get_mut(5).is_none());
}

#[test]
fn test_swap_twice_restores_and_self_swap_is_noop() {
    let mut vec2 = Vec2::new(2);
    for i in 10..15 {
        vec2.push(i);
    }
    vec2.swap(1, 4);
    vec2.swap(1, 4);
    for i in 0..5 {
        assert_eq!(*vec2.index(i), 10 + i as i32);
    }
    vec2.swap(2, 2);
    for i in 0..5 {
        assert_eq!(*vec2.index(i), 10 + i as i32);
    }
}

#[test]
fn test_double_each_doubles_in_order() {
    let mut vec2: Vec2<u64> = Vec2::new(2);
    vec2.push(1);
    vec2.push(2);
    vec2.push(3);
    vec2::double_each(&mut vec2);
    let mut collected: Vec<u64> = Vec::new();
    let mut it = vec2.iter();
    while let Some(x) = it.next() {
        collected.push(*x);
    }
    assert_eq!(collected, vec![2, 4, 6]);
    assert_eq!(vec2.chunk_size(), 2);
}

#[test]
fn test_scenario_chunk3_pushes_and_pops() {
    let mut vec2 = Vec2::new(3);
    vec2.push(1);
    vec2.push(2);
    vec2.push(3);
    vec2.push(4);
    assert_eq!(vec2.len(), 4);
    assert_eq!(vec2.capacity(), 6);
    assert_eq!(vec2.pop(), Some(4));
    assert_eq!(vec2.len(), 3);
    assert_eq!(vec2.pop(), Some(3));
    assert_eq!(vec2.len(), 2);
}

#[test]
fn test_chunk_size_is_fixed() {
    let mut vec2: Vec2<u8> = Vec2::new(4);
    assert_eq!(vec2.chunk_size(), 4);
    assert!(vec2.is_empty());
    for i in 0..9 {
        vec2.push(i);
    }
    assert_eq!(vec2.chunk_size(), 4);
    assert_eq!(vec2.capacity(), 12);
    assert_eq!(vec2.len(), 9);
}
