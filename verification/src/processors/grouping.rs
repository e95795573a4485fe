use crate::api::commands::{OrderCommand, OrderCommandType};
use vstd::prelude::*;

verus! {

/// Assigns commands to event groups: a group is closed when it holds as
/// many commands as the limit says, or when a command forces a new one.
pub struct GroupingProcessor {
    pub group_counter: u64,
    pub msgs_in_group_limit: usize,
}

/// Commands that open a new group before they are counted.
pub open spec fn forces_group(command: OrderCommandType) -> bool {
    command == OrderCommandType::Reset || command == OrderCommandType::PersistStateMatching
        || command == OrderCommandType::GroupingControl
}

/// The next group number; it starts over after the last one.
pub open spec fn next_group(counter: u64) -> u64 {
    if counter == u64::MAX {
        0
    } else {
        (counter + 1) as u64
    }
}

/// The group that a command gets.
pub open spec fn group_of(counter: u64, command: OrderCommandType) -> u64 {
    if forces_group(command) {
        next_group(counter)
    } else {
        counter
    }
}

impl GroupingProcessor {
    pub fn new(msgs_in_group_limit: usize) -> (g: Self)
        ensures
            g.group_counter == 0,
            g.msgs_in_group_limit == msgs_in_group_limit,
    {
        GroupingProcessor { group_counter: 0, msgs_in_group_limit }
    }

    /// Gives the command its group and counts it into the current group.
    pub fn process(&mut self, cmd: &mut OrderCommand, msgs_in_current_group: &mut usize)
        requires
            *old(msgs_in_current_group) < usize::MAX,
        ensures
            final(cmd).events_group == group_of(old(self).group_counter, old(cmd).command),
            final(cmd).command == old(cmd).command,
            final(cmd).result_code == old(cmd).result_code,
            final(cmd).uid == old(cmd).uid,
            final(cmd).order_id == old(cmd).order_id,
            final(cmd).symbol == old(cmd).symbol,
            final(cmd).price == old(cmd).price,
            final(cmd).reserve_price == old(cmd).reserve_price,
            final(cmd).size == old(cmd).size,
            final(cmd).action == old(cmd).action,
            final(cmd).order_type == old(cmd).order_type,
            final(cmd).timestamp == old(cmd).timestamp,
            final(cmd).service_flags == old(cmd).service_flags,
            final(cmd).stop_price == old(cmd).stop_price,
            final(cmd).visible_size == old(cmd).visible_size,
            final(cmd).expire_time == old(cmd).expire_time,
            final(cmd).matcher_events == old(cmd).matcher_events,
            final(self).msgs_in_group_limit == old(self).msgs_in_group_limit,
            ({
                let counted: int = if forces_group(old(cmd).command) {
                    1
                } else {
                    *old(msgs_in_current_group) + 1
                };
                if counted >= old(self).msgs_in_group_limit {
                    *final(msgs_in_current_group) == 0 && final(self).group_counter == next_group(
                        final(cmd).events_group,
                    )
                } else {
                    *final(msgs_in_current_group) == counted && final(self).group_counter
                        == final(cmd).events_group
                }
            }),
    {
        let forced: bool = match cmd.command {
            OrderCommandType::Reset => true,
            OrderCommandType::PersistStateMatching => true,
            OrderCommandType::GroupingControl => true,
            _ => false,
        };
        if forced {
            self.group_counter = self.group_counter.wrapping_add(1);
            *msgs_in_current_group = 0;
        }
        cmd.events_group = self.group_counter;
        *msgs_in_current_group = *msgs_in_current_group + 1;
        if *msgs_in_current_group >= self.msgs_in_group_limit {
            self.group_counter = self.group_counter.wrapping_add(1);
            *msgs_in_current_group = 0;
        }
    }
}

} // verus!
