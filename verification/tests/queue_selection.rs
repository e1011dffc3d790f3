use voxel_world::queues::{
    QueueFamilyProperties, QueueInfo, QueuesManager, QUEUE_GRAPHICS, QUEUE_TRANSFER,
};

fn fam(flags: u32, count: u32) -> QueueFamilyProperties {
    QueueFamilyProperties { flags, count }
}

#[test]
fn one_family_serves_graphics_and_transfer() {
    let families = vec![fam(QUEUE_GRAPHICS | QUEUE_TRANSFER | 0x2, 16), fam(QUEUE_TRANSFER, 2)];
    let support = vec![true, false];
    let (mut qm, infos) = QueuesManager::new(&families, &support).unwrap();
    // both reserved queues fit in the first family, so only it is created
    assert_eq!(infos, vec![(0, 2)]);
    assert_eq!(qm.get_default_graphics(), QueueInfo { family: 0, index: 0 });
    // the transfer queue is the second queue of the same family
    assert_eq!(qm.fetch_queue(QUEUE_TRANSFER), Some(QueueInfo { family: 0, index: 1 }));
    // everything is handed out now
    assert_eq!(qm.fetch_queue(QUEUE_TRANSFER), None);
    assert_eq!(qm.fetch_queue(QUEUE_GRAPHICS), None);
}

#[test]
fn dedicated_transfer_family_is_used() {
    let families = vec![fam(QUEUE_GRAPHICS, 1), fam(QUEUE_TRANSFER, 1)];
    let support = vec![true, true];
    let (mut qm, infos) = QueuesManager::new(&families, &support).unwrap();
    assert_eq!(infos, vec![(0, 1), (1, 1)]);
    assert_eq!(qm.get_default_graphics(), QueueInfo { family: 0, index: 0 });
    assert_eq!(qm.fetch_queue(QUEUE_TRANSFER), Some(QueueInfo { family: 1, index: 0 }));
    assert_eq!(qm.fetch_queue(QUEUE_TRANSFER), None);
}

#[test]
fn no_presentable_graphics_family_fails() {
    let families = vec![fam(QUEUE_GRAPHICS, 4), fam(QUEUE_TRANSFER, 4)];
    let support = vec![false, true];
    assert!(QueuesManager::new(&families, &support).is_none());
    // a device without graphics queues fails too
    let families = vec![fam(QUEUE_TRANSFER, 4)];
    let support = vec![true];
    assert!(QueuesManager::new(&families, &support).is_none());
}

#[test]
fn presentation_picks_the_first_capable_family() {
    let families = vec![
        fam(QUEUE_TRANSFER, 1),
        fam(QUEUE_GRAPHICS, 2),
        fam(QUEUE_GRAPHICS, 2),
    ];
    let support = vec![true, true, true];
    let (qm, infos) = QueuesManager::new(&families, &support).unwrap();
    // the transfer queue lands in family 0, graphics in family 1; family 2
    // contributes nothing
    assert_eq!(infos, vec![(0, 1), (1, 1)]);
    assert_eq!(qm.get_default_graphics(), QueueInfo { family: 1, index: 0 });
}
