use rua::aur_rpc_utils::{clean_package_name, plan_batches, take_batch, BATCH_SIZE};

#[test]
fn test_clean_package_name() {
    assert_eq!(clean_package_name("test"), Some("test".to_string()));
    assert_eq!(
        clean_package_name("abcdefghijklmnopqrstuvwxyz0123456789@_+.-"),
        Some("abcdefghijklmnopqrstuvwxyz0123456789@_+.-".to_string())
    );

    assert_eq!(clean_package_name(""), None);
    assert_eq!(clean_package_name("-test"), None);
    assert_eq!(clean_package_name(".test"), None);
    assert_eq!(clean_package_name("!"), None);
    assert_eq!(clean_package_name("german_\u{f6}"), None);

    assert_eq!(clean_package_name("@"), Some("@".to_string()));
    assert_eq!(clean_package_name("_"), Some("_".to_string()));
    assert_eq!(clean_package_name("+"), Some("+".to_string()));

    assert_eq!(clean_package_name("test>=0"), Some("test".to_string()));
    assert_eq!(clean_package_name("test>0"), Some("test".to_string()));
    assert_eq!(clean_package_name("test<0"), Some("test".to_string()));
    assert_eq!(clean_package_name("test<=0"), Some("test".to_string()));
    assert_eq!(clean_package_name("test=0"), Some("test".to_string()));
    assert_eq!(clean_package_name("test==0"), Some("test".to_string()));
}

#[test]
fn clean_package_name_lowercases() {
    assert_eq!(clean_package_name("Test>=0"), Some("test".to_string()));
    assert_eq!(clean_package_name("GCC"), Some("gcc".to_string()));
}

#[test]
fn batches_are_chunked_at_two_hundred() {
    let names = |n: usize| -> Vec<String> { (0..n).map(|i| format!("p{}", i)).collect() };
    assert_eq!(plan_batches(&names(0)).len(), 0);
    assert_eq!(plan_batches(&names(1)).len(), 1);
    assert_eq!(plan_batches(&names(200)).len(), 1);
    assert_eq!(plan_batches(&names(201)).len(), 2);
    assert_eq!(plan_batches(&names(400)).len(), 2);
    assert_eq!(plan_batches(&names(401)).len(), 3);
    let b = plan_batches(&names(201));
    assert_eq!(b[0].len(), 200);
    assert_eq!(b[1].len(), 1);
    assert_eq!(b[0][0], "p0");
    assert_eq!(b[1][0], "p200");
}

#[test]
fn take_batch_takes_the_queue_tail() {
    let mut queue: Vec<String> = (0..3).map(|i| format!("q{}", i)).collect();
    let chunk = take_batch(&mut queue);
    assert_eq!(chunk, vec!["q0".to_string(), "q1".to_string(), "q2".to_string()]);
    assert!(queue.is_empty());

    let mut queue: Vec<String> = (0..(BATCH_SIZE + 5)).map(|i| format!("q{}", i)).collect();
    let chunk = take_batch(&mut queue);
    assert_eq!(chunk.len(), BATCH_SIZE);
    assert_eq!(queue.len(), 5);
    assert_eq!(chunk[0], "q5");
}
