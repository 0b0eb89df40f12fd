//! Bring-up of an SH1107 display controller over the bounded transport:
//! detection by address, the fixed initialization commands and the clearing
//! of the display memory.

use vstd::prelude::*;
use vstd::string::StringSliceAdditionalSpecFns;
use crate::error::TransportError;
use crate::log::{BoundedLog, LogLevel, decimal, hex_pair, push_decimal, push_hex_pair, push_text, recorded};
use crate::transport::{Attempt, Transport, TransportExecutor, framed};

verus! {

/// The first address of a bus scan.
pub const SCAN_FIRST: u8 = 0x03;

/// The last address of a bus scan.
pub const SCAN_LAST: u8 = 0x77;

/// What a scan found at one address.
#[derive(Clone, Copy, Debug, PartialEq, Eq, Structural)]
pub enum Detection {
    /// Nothing answered.
    Absent,
    /// A device answered at an address that is not a display's.
    Other,
    /// A device answered at one of the display's two addresses.
    Display,
}

/// The control byte in front of display data.
pub const DATA_CONTROL: u8 = 0x40;

/// The number of pages of the display memory.
pub const PAGE_COUNT: u8 = 16;

/// The number of data bytes in one page.
pub const PAGE_WIDTH: usize = 128;

/// The number of frames that clearing the display sends: for each page its
/// address, the column reset, and the data.
pub const CLEAR_FRAMES: usize = 48;

/// The initialization commands, one byte each, in the order in which they
/// are sent: display off, start line, contrast, addressing mode, segment
/// remap, scan direction, display from memory, normal display, multiplex
/// ratio, display offset, oscillator, pre-charge, VCOM level, DC-DC control,
/// display on.
pub open spec fn init_sequence() -> Seq<u8> {
    seq![
        0xAEu8, 0xDCu8, 0x00u8, 0x81u8, 0x2Fu8, 0x20u8, 0xA0u8, 0xC0u8, 0xA4u8, 0xA6u8, 0xA8u8, 0x7Fu8,
        0xD3u8, 0x60u8, 0xD5u8, 0x51u8, 0xD9u8, 0x22u8, 0xDBu8, 0x35u8, 0xADu8, 0x8Au8, 0xAFu8,
    ]
}

/// The command that selects page `page`: `0xB0` with the page's low four
/// bits.
pub open spec fn page_address(page: u8) -> u8 {
    0xB0u8 | (page & 0x0Fu8)
}

/// The bytes of the column reset: low and high column nibble, both zero.
pub open spec fn column_reset() -> Seq<u8> {
    seq![0x00u8, 0x10u8]
}

/// A page of cleared display data.
pub open spec fn blank_page() -> Seq<u8> {
    Seq::new(PAGE_WIDTH as nat, |k: int| 0u8)
}

/// The `i`-th frame that clearing the display sends.
pub open spec fn clear_frame(prefix: u8, i: int) -> Seq<u8> {
    if i % 3 == 0 {
        framed(prefix, seq![page_address((i / 3) as u8)])
    } else if i % 3 == 1 {
        framed(prefix, column_reset())
    } else {
        framed(DATA_CONTROL, blank_page())
    }
}

/// The number of attempts that the bus accepted.
pub open spec fn accepted_count(attempts: Seq<Attempt>) -> nat
    decreases attempts.len(),
{
    if attempts.len() == 0 {
        0
    } else {
        accepted_count(attempts.drop_last()) + if attempts.last().accepted { 1nat } else { 0nat }
    }
}

/// The count of accepted attempts since `base` after one more attempt.
proof fn lemma_count_push(seen: Seq<Attempt>, base: int, last: Attempt)
    requires
        0 <= base <= seen.len(),
    ensures
        accepted_count(seen.push(last).skip(base)) == accepted_count(seen.skip(base)) + if last.accepted { 1nat } else { 0nat },
{
    assert(seen.push(last).skip(base).drop_last() =~= seen.skip(base));
}

/// The address is one of the two at which the display answers.
pub open spec fn display_address(address: u8) -> bool {
    address == 0x3C || address == 0x3D
}

/// Whether the address is one of the two at which the display answers.
pub fn is_display_address(address: u8) -> (r: bool)
    ensures
        r == display_address(address),
{
    address == 0x3C || address == 0x3D
}

/// Asks once whether a device answers at the transport's address, and says
/// what kind of device that is by the address.
pub fn detect<T: Transport>(exec: &mut TransportExecutor<T>) -> (r: Detection)
    ensures
        final(exec).limit() == old(exec).limit(),
        final(exec).prefix_byte() == old(exec).prefix_byte(),
        final(exec).device() == old(exec).device(),
        final(exec).readings() == old(exec).readings(),
        final(exec).journal() == old(exec).journal().push(
            (Attempt { address: old(exec).device(), frame: Seq::<u8>::empty(), accepted: r != Detection::Absent }),
        ),
        r == Detection::Display ==> display_address(old(exec).device()),
        r == Detection::Other ==> !display_address(old(exec).device()),
{
    if !exec.ping() {
        Detection::Absent
    } else if is_display_address(exec.address()) {
        Detection::Display
    } else {
        Detection::Other
    }
}

/// The initialization commands.
pub fn init_commands() -> (r: Vec<u8>)
    ensures
        r@ == init_sequence(),
{
    let r: Vec<u8> = vec![
        0xAEu8, 0xDCu8, 0x00u8, 0x81u8, 0x2Fu8, 0x20u8, 0xA0u8, 0xC0u8, 0xA4u8, 0xA6u8, 0xA8u8, 0x7Fu8,
        0xD3u8, 0x60u8, 0xD5u8, 0x51u8, 0xD9u8, 0x22u8, 0xDBu8, 0x35u8, 0xADu8, 0x8Au8, 0xAFu8,
    ];
    proof {
        assert(r@ =~= init_sequence());
    }
    r
}

/// The command that selects page `page`.
pub fn page_address_command(page: u8) -> (r: u8)
    ensures
        r == page_address(page),
{
    0xB0u8 | (page & 0x0Fu8)
}

/// The line about one command for the device at `address`: that it was
/// sent, or that it failed, with the command and the address in
/// hexadecimal.
pub open spec fn command_line(sent: bool, cmd: u8, address: u8) -> Seq<u8> {
    (if sent {
        "Sent cmd 0x".spec_bytes()
    } else {
        "Failed cmd 0x".spec_bytes()
    }) + hex_pair(cmd) + " to 0x".spec_bytes() + hex_pair(address) + seq![10u8]
}

/// The level of the line about one command: a command that was sent is a
/// `Verbose` event, one that failed a `Normal` event.
pub open spec fn command_level(sent: bool) -> LogLevel {
    if sent {
        LogLevel::Verbose
    } else {
        LogLevel::Normal
    }
}

/// The log text after the line about one command.
pub open spec fn after_command(text: Seq<u8>, capacity: nat, configured: LogLevel, sent: bool, cmd: u8, address: u8) -> Seq<u8> {
    recorded(text, capacity, configured, command_level(sent), command_line(sent, cmd, address))
}

/// The log text after the lines about the commands `cmds`, of which the
/// `k`-th was accepted or not as the `k`-th of `attempts` says.
pub open spec fn command_trail(
    text: Seq<u8>,
    capacity: nat,
    configured: LogLevel,
    address: u8,
    cmds: Seq<u8>,
    attempts: Seq<Attempt>,
) -> Seq<u8>
    decreases cmds.len(),
{
    if cmds.len() == 0 {
        text
    } else {
        after_command(
            command_trail(text, capacity, configured, address, cmds.drop_last(), attempts),
            capacity,
            configured,
            attempts[cmds.len() - 1].accepted,
            cmds.last(),
            address,
        )
    }
}

/// The line that says that the address of page `page` was not set.
pub open spec fn page_failed_line(page: u8) -> Seq<u8> {
    "Failed to set page address ".spec_bytes() + decimal(page as nat) + seq![10u8]
}

/// The line that says that the column was not reset.
pub open spec fn column_failed_line() -> Seq<u8> {
    "Failed to set column address".spec_bytes() + seq![10u8]
}

/// The line that says that page `page` was not cleared.
pub open spec fn data_failed_line(page: u8) -> Seq<u8> {
    "Failed to clear page ".spec_bytes() + decimal(page as nat) + seq![10u8]
}

/// The line that closes the clearing of the display.
pub open spec fn cleared_line() -> Seq<u8> {
    "Display cleared".spec_bytes() + seq![10u8]
}

/// The log text with `line` as a `Normal` event where `failed` holds, and
/// as it is where not.
pub open spec fn noted_if(text: Seq<u8>, capacity: nat, configured: LogLevel, failed: bool, line: Seq<u8>) -> Seq<u8> {
    if failed {
        recorded(text, capacity, configured, LogLevel::Normal, line)
    } else {
        text
    }
}

/// The log text after the first `pages` pages were cleared: one line for
/// each frame that the bus rejected, as `attempts` says.
pub open spec fn clear_trail(text: Seq<u8>, capacity: nat, configured: LogLevel, attempts: Seq<Attempt>, pages: nat) -> Seq<u8>
    decreases pages,
{
    if pages == 0 {
        text
    } else {
        let p = (pages - 1) as nat;
        let t0 = clear_trail(text, capacity, configured, attempts, p);
        let t1 = noted_if(t0, capacity, configured, !attempts[3 * p as int].accepted, page_failed_line(p as u8));
        let t2 = noted_if(t1, capacity, configured, !attempts[3 * p as int + 1].accepted, column_failed_line());
        noted_if(t2, capacity, configured, !attempts[3 * p as int + 2].accepted, data_failed_line(p as u8))
    }
}

/// The lines about the commands depend on the attempts of those commands only.
proof fn lemma_command_trail_agree(
    text: Seq<u8>,
    capacity: nat,
    configured: LogLevel,
    address: u8,
    cmds: Seq<u8>,
    a: Seq<Attempt>,
    b: Seq<Attempt>,
)
    requires
        forall|k: int| 0 <= k < cmds.len() ==> a[k] == b[k],
    ensures
        command_trail(text, capacity, configured, address, cmds, a) == command_trail(text, capacity, configured, address, cmds, b),
    decreases cmds.len(),
{
    if cmds.len() > 0 {
        lemma_command_trail_agree(text, capacity, configured, address, cmds.drop_last(), a, b);
    }
}

/// The lines about the pages depend on the attempts of those pages only.
proof fn lemma_clear_trail_agree(text: Seq<u8>, capacity: nat, configured: LogLevel, a: Seq<Attempt>, b: Seq<Attempt>, pages: nat)
    requires
        forall|k: int| 0 <= k < 3 * pages ==> a[k] == b[k],
    ensures
        clear_trail(text, capacity, configured, a, pages) == clear_trail(text, capacity, configured, b, pages),
    decreases pages,
{
    if pages > 0 {
        lemma_clear_trail_agree(text, capacity, configured, a, b, (pages - 1) as nat);
    }
}

/// Records `line` as a `Normal` event where `failed` holds.
fn note_if(log: &mut BoundedLog, failed: bool, line: &Vec<u8>)
    requires
        old(log).wf(),
    ensures
        final(log).wf(),
        final(log).limit() == old(log).limit(),
        final(log).configured() == old(log).configured(),
        final(log).text() == noted_if(old(log).text(), old(log).limit(), old(log).configured(), failed, line@),
{
    if failed {
        log.write_line(LogLevel::Normal, line.as_slice());
    }
}

/// Sends the single-byte command `cmd` and records one line: that the
/// command was sent, where the bus accepted it, and that it failed, where
/// not.
pub fn send_cmd<T: Transport>(exec: &mut TransportExecutor<T>, log: &mut BoundedLog, cmd: u8) -> (r: Result<(), TransportError>)
    requires
        old(log).wf(),
    ensures
        final(exec).limit() == old(exec).limit(),
        final(exec).prefix_byte() == old(exec).prefix_byte(),
        final(exec).device() == old(exec).device(),
        final(exec).readings() == old(exec).readings(),
        old(exec).limit() < 1 <==> r == Err::<(), TransportError>(TransportError::BufferOverflow),
        old(exec).limit() < 1 ==> *final(exec) == *old(exec),
        old(exec).limit() >= 1 ==> {
            &&& r is Ok || r == Err::<(), TransportError>(TransportError::ExecutionFailed)
            &&& final(exec).journal() == old(exec).journal().push(
                (Attempt {
                    address: old(exec).device(),
                    frame: framed(old(exec).prefix_byte(), seq![cmd]),
                    accepted: r is Ok,
                }),
            )
        },
        final(log).wf(),
        final(log).limit() == old(log).limit(),
        final(log).configured() == old(log).configured(),
        final(log).text() == after_command(
            old(log).text(),
            old(log).limit(),
            old(log).configured(),
            r is Ok,
            cmd,
            old(exec).device(),
        ),
{
    let mut bytes: Vec<u8> = Vec::new();
    bytes.push(cmd);
    proof {
        assert(bytes@ =~= seq![cmd]);
    }
    let r = exec.execute(bytes.as_slice());
    let sent: bool = r.is_ok();
    let mut line: Vec<u8> = Vec::new();
    if sent {
        push_text(&mut line, "Sent cmd 0x");
    } else {
        push_text(&mut line, "Failed cmd 0x");
    }
    push_hex_pair(&mut line, cmd);
    push_text(&mut line, " to 0x");
    push_hex_pair(&mut line, exec.address());
    line.push(10u8);
    proof {
        assert(line@ =~= command_line(sent, cmd, exec.device()));
    }
    if sent {
        log.write_line(LogLevel::Verbose, line.as_slice());
    } else {
        log.write_line(LogLevel::Normal, line.as_slice());
    }
    r
}

/// Sends the initialization commands in order, each as a command of its
/// own with its line in the log, going on after a command that the bus
/// rejects.
///
/// Where the transport takes no single-byte command, nothing is sent or
/// recorded and the result is `BufferOverflow`. Otherwise the result is the
/// number of commands that the bus accepted.
pub fn init_sh1107<T: Transport>(exec: &mut TransportExecutor<T>, log: &mut BoundedLog) -> (r: Result<usize, TransportError>)
    requires
        old(log).wf(),
    ensures
        final(exec).limit() == old(exec).limit(),
        final(exec).prefix_byte() == old(exec).prefix_byte(),
        final(exec).device() == old(exec).device(),
        final(exec).readings() == old(exec).readings(),
        final(log).wf(),
        final(log).limit() == old(log).limit(),
        final(log).configured() == old(log).configured(),
        old(exec).limit() < 1 <==> r == Err::<usize, TransportError>(TransportError::BufferOverflow),
        old(exec).limit() < 1 ==> *final(exec) == *old(exec) && final(log).text() == old(log).text(),
        old(exec).limit() >= 1 ==> {
            &&& r is Ok
            &&& final(exec).journal().len() == old(exec).journal().len() + init_sequence().len()
            &&& final(exec).journal().take(old(exec).journal().len() as int) == old(exec).journal()
            &&& forall|i: int|
                0 <= i < init_sequence().len() ==> {
                    let entry = #[trigger] final(exec).journal()[old(exec).journal().len() + i];
                    &&& entry.address == old(exec).device()
                    &&& entry.frame == framed(old(exec).prefix_byte(), seq![init_sequence()[i]])
                }
            &&& r->Ok_0 == accepted_count(final(exec).journal().skip(old(exec).journal().len() as int))
            &&& final(log).text() == command_trail(
                old(log).text(),
                old(log).limit(),
                old(log).configured(),
                old(exec).device(),
                init_sequence(),
                final(exec).journal().skip(old(exec).journal().len() as int),
            )
        },
{
    if exec.max_cmd_len() < 1 {
        return Err(TransportError::BufferOverflow);
    }
    let commands = init_commands();
    let ghost before = exec.journal();
    let ghost base = before.len() as int;
    let ghost text = log.text();
    let ghost cap = log.limit();
    let ghost lvl = log.configured();
    let ghost dev = exec.device();
    let mut accepted: usize = 0;
    let mut i: usize = 0;
    proof {
        assert(exec.journal().take(base) =~= before);
        assert(exec.journal().skip(base) =~= Seq::<Attempt>::empty());
        assert(commands@.take(0) =~= Seq::<u8>::empty());
    }
    while i < commands.len()
        invariant
            i <= commands.len(),
            commands@ == init_sequence(),
            accepted <= i,
            before == old(exec).journal(),
            base == before.len(),
            text == old(log).text(),
            cap == old(log).limit(),
            lvl == old(log).configured(),
            dev == old(exec).device(),
            log.wf(),
            log.limit() == cap,
            log.configured() == lvl,
            exec.limit() == old(exec).limit(),
            exec.limit() >= 1,
            exec.prefix_byte() == old(exec).prefix_byte(),
            exec.device() == old(exec).device(),
            exec.readings() == old(exec).readings(),
            exec.journal().len() == base + i,
            exec.journal().take(base) == before,
            forall|k: int|
                0 <= k < i ==> {
                    let entry = #[trigger] exec.journal()[base + k];
                    &&& entry.address == exec.device()
                    &&& entry.frame == framed(exec.prefix_byte(), seq![commands@[k]])
                },
            accepted == accepted_count(exec.journal().skip(base)),
            log.text() == command_trail(text, cap, lvl, dev, commands@.take(i as int), exec.journal().skip(base)),
        decreases commands.len() - i,
    {
        let ghost seen = exec.journal();
        let answer = send_cmd(exec, log, commands[i]);
        proof {
            assert(exec.journal().take(base) =~= seen.take(base));
            assert(exec.journal().skip(base).drop_last() =~= seen.skip(base));
            lemma_command_trail_agree(text, cap, lvl, dev, commands@.take(i as int), seen.skip(base), exec.journal().skip(base));
            assert(commands@.take(i as int + 1).drop_last() =~= commands@.take(i as int));
        }
        if answer.is_ok() {
            accepted += 1;
        }
        i += 1;
    }
    proof {
        assert(commands@.take(commands@.len() as int) =~= commands@);
    }
    Ok(accepted)
}

/// Clears the display memory: for each page in turn, sends the page address
/// and the column reset as commands and then a page of zeros as data, going
/// on after a frame that the bus rejects. Each rejected frame has its line
/// in the log, and a closing line says that the display was cleared.
///
/// Where the transport does not take a whole page, nothing is sent or
/// recorded and the result is `BufferOverflow`. Otherwise the result is the
/// number of frames that the bus accepted.
pub fn clear_display<T: Transport>(exec: &mut TransportExecutor<T>, log: &mut BoundedLog) -> (r: Result<usize, TransportError>)
    requires
        old(log).wf(),
    ensures
        final(exec).limit() == old(exec).limit(),
        final(exec).prefix_byte() == old(exec).prefix_byte(),
        final(exec).device() == old(exec).device(),
        final(exec).readings() == old(exec).readings(),
        final(log).wf(),
        final(log).limit() == old(log).limit(),
        final(log).configured() == old(log).configured(),
        old(exec).limit() < PAGE_WIDTH <==> r == Err::<usize, TransportError>(TransportError::BufferOverflow),
        old(exec).limit() < PAGE_WIDTH ==> *final(exec) == *old(exec) && final(log).text() == old(log).text(),
        old(exec).limit() >= PAGE_WIDTH ==> {
            &&& r is Ok
            &&& final(exec).journal().len() == old(exec).journal().len() + CLEAR_FRAMES
            &&& final(exec).journal().take(old(exec).journal().len() as int) == old(exec).journal()
            &&& forall|i: int|
                0 <= i < CLEAR_FRAMES ==> {
                    let entry = #[trigger] final(exec).journal()[old(exec).journal().len() + i];
                    &&& entry.address == old(exec).device()
                    &&& entry.frame == clear_frame(old(exec).prefix_byte(), i)
                }
            &&& r->Ok_0 == accepted_count(final(exec).journal().skip(old(exec).journal().len() as int))
            &&& final(log).text() == recorded(
                clear_trail(
                    old(log).text(),
                    old(log).limit(),
                    old(log).configured(),
                    final(exec).journal().skip(old(exec).journal().len() as int),
                    PAGE_COUNT as nat,
                ),
                old(log).limit(),
                old(log).configured(),
                LogLevel::Normal,
                cleared_line(),
            )
        },
{
    if exec.max_cmd_len() < PAGE_WIDTH {
        return Err(TransportError::BufferOverflow);
    }
    let mut blank: Vec<u8> = Vec::new();
    let mut k: usize = 0;
    while k < PAGE_WIDTH
        invariant
            k <= PAGE_WIDTH,
            blank@.len() == k,
            forall|m: int| 0 <= m < k ==> blank@[m] == 0u8,
        decreases PAGE_WIDTH - k,
    {
        blank.push(0u8);
        k += 1;
    }
    let mut column: Vec<u8> = Vec::new();
    column.push(0x00u8);
    column.push(0x10u8);
    let mut column_failed: Vec<u8> = Vec::new();
    push_text(&mut column_failed, "Failed to set column address");
    column_failed.push(10u8);
    proof {
        assert(blank@ =~= blank_page());
        assert(column@ =~= column_reset());
        assert(column_failed@ =~= column_failed_line());
    }
    let ghost before = exec.journal();
    let ghost base = before.len() as int;
    let ghost prefix = exec.prefix_byte();
    let ghost text = log.text();
    let ghost cap = log.limit();
    let ghost lvl = log.configured();
    let mut accepted: usize = 0;
    let mut page: u8 = 0;
    proof {
        assert(exec.journal().take(base) =~= before);
        assert(exec.journal().skip(base) =~= Seq::<Attempt>::empty());
    }
    while page < PAGE_COUNT
        invariant
            page <= PAGE_COUNT,
            blank@ == blank_page(),
            column@ == column_reset(),
            column_failed@ == column_failed_line(),
            accepted <= 3 * page,
            before == old(exec).journal(),
            base == before.len(),
            prefix == old(exec).prefix_byte(),
            text == old(log).text(),
            cap == old(log).limit(),
            lvl == old(log).configured(),
            log.wf(),
            log.limit() == cap,
            log.configured() == lvl,
            exec.limit() == old(exec).limit(),
            exec.limit() >= PAGE_WIDTH,
            exec.prefix_byte() == prefix,
            exec.device() == old(exec).device(),
            exec.readings() == old(exec).readings(),
            exec.journal().len() == base + 3 * page,
            exec.journal().take(base) == before,
            forall|i: int|
                0 <= i < 3 * page ==> {
                    let entry = #[trigger] exec.journal()[base + i];
                    &&& entry.address == exec.device()
                    &&& entry.frame == clear_frame(prefix, i)
                },
            accepted == accepted_count(exec.journal().skip(base)),
            log.text() == clear_trail(text, cap, lvl, exec.journal().skip(base), page as nat),
        decreases PAGE_COUNT - page,
    {
        let ghost seen0 = exec.journal();
        let ghost told0 = log.text();
        let mut select: Vec<u8> = Vec::new();
        select.push(page_address_command(page));
        let mut page_failed: Vec<u8> = Vec::new();
        push_text(&mut page_failed, "Failed to set page address ");
        push_decimal(&mut page_failed, page as usize);
        page_failed.push(10u8);
        let mut data_failed: Vec<u8> = Vec::new();
        push_text(&mut data_failed, "Failed to clear page ");
        push_decimal(&mut data_failed, page as usize);
        data_failed.push(10u8);
        proof {
            assert(select@ =~= seq![page_address(page)]);
            assert(page_failed@ =~= page_failed_line(page));
            assert(data_failed@ =~= data_failed_line(page));
        }
        let set_page = exec.execute(select.as_slice());
        let ghost seen1 = exec.journal();
        proof {
            lemma_count_push(seen0, base, seen1.last());
            assert(seen1 =~= seen0.push(seen1.last()));
        }
        note_if(log, set_page.is_err(), &page_failed);
        if set_page.is_ok() {
            accepted += 1;
        }
        assert(accepted == accepted_count(seen1.skip(base)));
        let set_column = exec.execute(column.as_slice());
        let ghost seen2 = exec.journal();
        proof {
            lemma_count_push(seen1, base, seen2.last());
            assert(seen2 =~= seen1.push(seen2.last()));
        }
        note_if(log, set_column.is_err(), &column_failed);
        if set_column.is_ok() {
            accepted += 1;
        }
        assert(accepted == accepted_count(seen2.skip(base)));
        let data = exec.execute_with(DATA_CONTROL, blank.as_slice());
        note_if(log, data.is_err(), &data_failed);
        proof {
            let now = exec.journal();
            lemma_count_push(seen2, base, now.last());
            assert(now =~= seen2.push(now.last()));
            assert(now.take(base) =~= seen0.take(base));
            assert forall|i: int| 0 <= i < 3 * (page + 1) implies {
                let entry = #[trigger] now[base + i];
                &&& entry.address == exec.device()
                &&& entry.frame == clear_frame(prefix, i)
            } by {
                if i < 3 * page {
                    assert(now[base + i] == seen0[base + i]);
                }
            }
            lemma_clear_trail_agree(text, cap, lvl, seen0.skip(base), now.skip(base), page as nat);
            assert(now.skip(base)[3 * page] == seen1.last());
            assert(now.skip(base)[3 * page + 1] == seen2.last());
            assert(now.skip(base)[3 * page + 2] == now.last());
        }
        if data.is_ok() {
            accepted += 1;
        }
        page += 1;
    }
    let mut cleared: Vec<u8> = Vec::new();
    push_text(&mut cleared, "Display cleared");
    cleared.push(10u8);
    proof {
        assert(cleared@ =~= cleared_line());
    }
    log.write_line(LogLevel::Normal, cleared.as_slice());
    Ok(accepted)
}

} // verus!
